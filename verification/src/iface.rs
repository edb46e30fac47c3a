//! Per-interface throughput sampling and the asymmetry detector.
//!
//! The premise: a host that is genuinely downloading also transmits. Sustained
//! inbound with near-zero outbound means packets are arriving that this host is
//! not participating in. The interface counters see traffic that connection
//! tracking cannot: UDP to a closed port has no socket and no conntrack entry,
//! but it still moves the counters.
//!
//! A tick goes in steps, because measuring happens outside: the counters are
//! compared, the rates are judged, the suspects are measured once more against
//! what sockets and conntrack account for, and what is left is an alert.

use vstd::prelude::*;

use crate::alert;
use crate::alert::{fmt_duration, Alert, AlertView};
use crate::collector::{Measured, Snapshot};
use crate::config::{Config, ConfigView};
use crate::rate::Rate;
use crate::table;
use crate::table::Table;
use crate::text;
use crate::text::{
    cut_once, is_listed, join_texts, read_unsigned, split_lines, split_words, to_chars, to_text,
    trimmed,
};

verus! {

// -- Counters -----------------------------------------------------------------

#[derive(Clone, Copy, Debug, PartialEq, Eq, Structural)]
pub struct Counters {
    pub rx: u64,
    pub tx: u64,
}

/// The counters on one line of `/proc/net/dev`: the name, a colon, and at least
/// nine numbers, of which the first and the ninth count bytes in and out.
pub open spec fn counters_on(line: Seq<char>) -> Option<(Seq<char>, Counters)> {
    match text::split_once(line, ':') {
        Some((name, rest)) => {
            let w = text::words(rest);
            if w.len() < 9 {
                None
            } else {
                match (
                    text::unsigned(w[0], u64::MAX as nat),
                    text::unsigned(w[8], u64::MAX as nat),
                ) {
                    (Some(rx), Some(tx)) => Some(
                        (text::trim(name), Counters { rx: rx as u64, tx: tx as u64 }),
                    ),
                    _ => None,
                }
            }
        },
        None => None,
    }
}

/// The counters on the first `n` lines, of which two are headers.
pub open spec fn counters_upto(lines: Seq<Seq<char>>, n: int) -> Map<Seq<char>, Counters>
    decreases n,
{
    if n <= 2 {
        Map::empty()
    } else {
        match counters_on(lines[n - 1]) {
            Some((name, counters)) => counters_upto(lines, n - 1).insert(name, counters),
            None => counters_upto(lines, n - 1),
        }
    }
}

/// The counters of every interface, by the content of `/proc/net/dev`.
pub open spec fn counters_in(s: Seq<char>) -> Map<Seq<char>, Counters> {
    counters_upto(text::lines(s), text::lines(s).len() as int)
}

fn read_counters(line: &Vec<char>) -> (out: Option<(String, Counters)>)
    ensures
        match out {
            Some(p) => counters_on(line@) == Some((p.0@, p.1)),
            None => counters_on(line@) is None,
        },
{
    match cut_once(line, ':') {
        Some((name, rest)) => {
            let words = split_words(&rest);
            let ghost w = text::words(rest@);
            assert(forall|k: int| 0 <= k < words@.len() ==> w[k] == (#[trigger] words@[k])@);
            if words.len() < 9 {
                return None;
            }
            match (read_unsigned(&words[0], u64::MAX), read_unsigned(&words[8], u64::MAX)) {
                (Some(rx), Some(tx)) => Some((to_text(&trimmed(&name)), Counters { rx, tx })),
                _ => None,
            }
        },
        None => None,
    }
}

/// Cumulative byte counters for every interface, from the content of
/// `/proc/net/dev`; none where it could not be read.
pub fn read_dev(content: Option<&str>) -> (out: Table<Counters>)
    ensures
        out.wf(),
        out@ == match content {
            Some(t) => counters_in(t@),
            None => Map::empty(),
        },
{
    let mut out: Table<Counters> = Table::new();
    match content {
        None => {},
        Some(t) => {
            let lines = split_lines(&to_chars(t));
            let ghost model = text::lines(t@);
            let mut i: usize = if lines.len() < 2 {
                lines.len()
            } else {
                2
            };
            while i < lines.len()
                invariant
                    i <= lines.len(),
                    i < 2 ==> i == lines.len(),
                    model == text::spelled(lines@),
                    out.wf(),
                    out@ == counters_upto(model, i as int),
                decreases lines.len() - i,
            {
                assert(model[i as int] == lines@[i as int]@);
                match read_counters(&lines[i]) {
                    Some((name, counters)) => {
                        out.put(name, counters);
                    },
                    None => {},
                }
                i = i + 1;
            }
        },
    }
    out
}

// -- Samples ------------------------------------------------------------------

/// How far a counter has moved. A counter that went backwards was reset, which
/// is a sample without traffic rather than a spike.
pub open spec fn moved(before: u64, after: u64) -> u64 {
    if after >= before {
        (after - before) as u64
    } else {
        0
    }
}

/// Bytes that an interface moved since the sample before.
pub struct Sampled {
    pub name: String,
    pub rx: u64,
    pub tx: u64,
}

pub struct SampledView {
    pub name: Seq<char>,
    pub rx: u64,
    pub tx: u64,
}

impl View for Sampled {
    type V = SampledView;

    open spec fn view(&self) -> SampledView {
        SampledView { name: self.name@, rx: self.rx, tx: self.tx }
    }
}

pub open spec fn sampled_view(v: Seq<Sampled>) -> Seq<SampledView> {
    v.map_values(|s: Sampled| s@)
}

/// What the first `n` interfaces moved. One that is to be ignored is left out,
/// and so is one that appeared just now: it waits for a baseline.
pub open spec fn samples_upto(
    current: Seq<(String, Counters)>,
    last: Map<Seq<char>, Counters>,
    ignored: Seq<Seq<char>>,
    n: int,
) -> Seq<SampledView>
    decreases n,
{
    if n <= 0 {
        Seq::empty()
    } else {
        let name = current[n - 1].0@;
        let before = samples_upto(current, last, ignored, n - 1);
        if ignored.contains(name) || !last.dom().contains(name) {
            before
        } else {
            before.push(
                SampledView {
                    name,
                    rx: moved(last[name].rx, current[n - 1].1.rx),
                    tx: moved(last[name].tx, current[n - 1].1.tx),
                },
            )
        }
    }
}

fn delta(before: u64, after: u64) -> (out: u64)
    ensures
        out == moved(before, after),
{
    if after >= before {
        after - before
    } else {
        0
    }
}

// -- Corroboration ------------------------------------------------------------

/// Why conntrack could not contribute, when it could not. One is a
/// misconfiguration with a fix to prescribe, the other an ordinary quiet moment.
#[derive(Clone, Copy, Debug, PartialEq, Eq, Structural)]
pub enum ConntrackGap {
    /// Accounting is off, so no flow carries byte counters.
    AccountingOff,
    /// Accounting is on but the table was empty.
    NoFlows,
}

/// What conntrack has been seen to account for.
pub struct Conntrack {
    /// Last distinct snapshot. Held rather than overwritten every tick, because
    /// the collector refreshes on its own time and an identical read would make
    /// the measurement window zero-length.
    pub last: Option<Snapshot>,
    /// What the inbound rate over the last refresh interval was made of.
    pub rate: Option<Measured>,
    /// Why conntrack contributed nothing, when it contributed nothing.
    pub gap: Option<ConntrackGap>,
    /// A misconfiguration is logged once per onset, not every tick.
    pub warned: bool,
}

impl Conntrack {
    pub open spec fn gap_in(current: Snapshot) -> Option<ConntrackGap> {
        if !current.conntrack_acct {
            Some(ConntrackGap::AccountingOff)
        } else if current.conntrack_flows == 0 {
            Some(ConntrackGap::NoFlows)
        } else {
            None
        }
    }

    /// This view after reading a snapshot, or after finding none.
    ///
    /// A snapshot that could not measure drops any rate learned earlier, and
    /// still becomes the baseline, so that the first measurable sample after the
    /// gap does not reach back across it. One that could becomes the baseline
    /// only where the collector wrote something new.
    pub open spec fn refreshed(self, current: Option<Snapshot>) -> Conntrack {
        match current {
            None => self,
            Some(now) => {
                let gap = Conntrack::gap_in(now);
                if gap is Some {
                    Conntrack {
                        last: Some(now),
                        rate: None,
                        gap,
                        warned: self.warned || gap == Some(ConntrackGap::AccountingOff),
                    }
                } else {
                    match self.last {
                        None => Conntrack { last: Some(now), rate: self.rate, gap, warned: false },
                        Some(prev) => match now.replies_since(prev) {
                            Some(m) => Conntrack {
                                last: Some(now),
                                rate: Some(m),
                                gap,
                                warned: false,
                            },
                            None => Conntrack {
                                last: if prev.measures() {
                                    Some(prev)
                                } else {
                                    Some(now)
                                },
                                rate: self.rate,
                                gap,
                                warned: false,
                            },
                        },
                    }
                }
            },
        }
    }

    /// Reading a snapshot calls for a warning: accounting is found off for the
    /// first time.
    pub open spec fn warns(self, current: Option<Snapshot>) -> bool {
        current is Some && Conntrack::gap_in(current.unwrap()) == Some(
            ConntrackGap::AccountingOff,
        ) && !self.warned
    }

    pub fn start(last: Option<Snapshot>) -> (out: Conntrack)
        ensures
            out == (Conntrack { last, rate: None, gap: None, warned: false }),
    {
        Conntrack { last, rate: None, gap: None, warned: false }
    }

    /// Take up what was read. Returns whether the reader has to be warned that
    /// accounting is off.
    pub fn refresh(&mut self, current: Option<Snapshot>) -> (warn: bool)
        ensures
            *final(self) == old(self).refreshed(current),
            warn == old(self).warns(current),
    {
        let now = match current {
            Some(now) => now,
            None => {
                return false;
            },
        };
        self.gap = if !now.conntrack_acct {
            Some(ConntrackGap::AccountingOff)
        } else if now.conntrack_flows == 0 {
            Some(ConntrackGap::NoFlows)
        } else {
            None
        };
        if self.gap.is_some() {
            self.rate = None;
            self.last = Some(now);
            if self.gap == Some(ConntrackGap::AccountingOff) && !self.warned {
                self.warned = true;
                return true;
            }
            return false;
        }
        self.warned = false;
        match self.last {
            Some(prev) => match now.reply_bps_since(&prev) {
                Some(m) => {
                    self.rate = Some(m);
                    self.last = Some(now);
                },
                None => {
                    if !prev.measures_bytes() {
                        self.last = Some(now);
                    }
                },
            },
            None => {
                self.last = Some(now);
            },
        }
        false
    }
}

/// What each corroboration source was able to see, kept per source rather than
/// collapsed to a single figure: one number cannot say whether it came from both
/// sources agreeing or from one source while the other was blind.
#[derive(Clone, Copy, Debug, PartialEq, Eq, Structural)]
pub struct Corroboration {
    /// Established-socket receive rate, when sampled. TCP only.
    pub by_socket: Option<Rate>,
    /// Conntrack's rate, when it could be measured. Covers UDP.
    pub by_conntrack: Option<Rate>,
    /// Set when conntrack was installed but contributed nothing, so its silence
    /// must not be read as evidence of absence.
    pub gap: Option<ConntrackGap>,
}

impl Corroboration {
    /// The best-informed figure available, since each source is blind where the
    /// other sees. None when nothing could measure at all.
    pub open spec fn best(self) -> Option<Rate> {
        match (self.by_socket, self.by_conntrack) {
            (Some(a), Some(b)) => if b.rank() > a.rank() {
                Some(b)
            } else {
                Some(a)
            },
            (Some(a), None) => Some(a),
            (None, Some(b)) => Some(b),
            (None, None) => None,
        }
    }

    pub fn accounted(&self) -> (out: Option<Rate>)
        ensures
            out == self.best(),
    {
        match (self.by_socket, self.by_conntrack) {
            (Some(a), Some(b)) => if a.at_least(b) {
                Some(a)
            } else {
                Some(b)
            },
            (Some(a), None) => Some(a),
            (None, Some(b)) => Some(b),
            (None, None) => None,
        }
    }

    /// Whether UDP could be seen at all. Without conntrack a consumed stream and
    /// a flood are indistinguishable.
    pub fn udp_is_visible(&self) -> (b: bool)
        ensures
            b == self.by_conntrack is Some,
    {
        self.by_conntrack.is_some()
    }

    /// Which source accounts for traffic that is being read.
    pub open spec fn credited(self) -> Seq<char> {
        match (self.by_socket, self.by_conntrack) {
            (Some(a), Some(b)) => if b.rank() > a.rank() {
                "conntrack accounts"@
            } else {
                "sockets account"@
            },
            (Some(_), None) => "sockets account"@,
            (None, _) => "conntrack accounts"@,
        }
    }

    pub fn via(&self) -> (out: &'static str)
        ensures
            out@ == self.credited(),
    {
        match (self.by_socket, self.by_conntrack) {
            (Some(a), Some(b)) => if a.at_least(b) {
                "sockets account"
            } else {
                "conntrack accounts"
            },
            (Some(_), None) => "sockets account",
            (None, _) => "conntrack accounts",
        }
    }

    pub open spec fn explanation(self) -> Seq<char> {
        match self.gap {
            Some(
                ConntrackGap::AccountingOff,
            ) => "conntrack byte accounting is off, so enable net.netfilter.nf_conntrack_acct=1"@,
            Some(ConntrackGap::NoFlows) => "conntrack had no tracked flows to measure"@,
            None => "conntrack did not report"@,
        }
    }

    /// Why conntrack contributed nothing, phrased for someone reading an alert.
    /// An empty table is not a fault and has no fix to prescribe.
    pub fn gap_explanation(&self) -> (out: &'static str)
        ensures
            out@ == self.explanation(),
    {
        match self.gap {
            Some(
                ConntrackGap::AccountingOff,
            ) => "conntrack byte accounting is off, so enable net.netfilter.nf_conntrack_acct=1",
            Some(ConntrackGap::NoFlows) => "conntrack had no tracked flows to measure",
            None => "conntrack did not report",
        }
    }
}

// -- The detector -------------------------------------------------------------

/// The rates of one interface, and what they are held against.
pub struct Judged {
    pub name: String,
    pub rx: Rate,
    pub tx: Rate,
    /// The inbound rate times the asymmetry ratio: what an answer has to reach.
    pub answer_floor: Rate,
    /// The inbound rate times the accounted fraction: what the sources have to
    /// account for.
    pub account_floor: Rate,
}

/// An interface about which the last question is due: is something on this host
/// actually reading the traffic?
pub struct Suspect {
    pub name: String,
    /// For how many seconds it has been suspect.
    pub held_secs: u64,
    /// What the sources have to account for.
    pub account_floor: Rate,
}

pub struct SuspectView {
    pub name: Seq<char>,
    pub held_secs: nat,
    pub account_floor: Rate,
}

impl View for Suspect {
    type V = SuspectView;

    open spec fn view(&self) -> SuspectView {
        SuspectView {
            name: self.name@,
            held_secs: self.held_secs as nat,
            account_floor: self.account_floor,
        }
    }
}

pub open spec fn suspects_view(v: Seq<Suspect>) -> Seq<SuspectView> {
    v.map_values(|s: Suspect| s@)
}

/// Nanoseconds in a second.
pub const NANOS: u64 = 1_000_000_000;

/// Inbound without a matching answer. A router receives on one interface and
/// answers on another, so when forwarding the answer is the whole host's.
pub open spec fn one_sided(
    rx: Rate,
    answering: Rate,
    answer_floor: Rate,
    config: ConfigView,
) -> bool {
    rx.rank() >= config.rx_floor_bps.rank() && answering.rank() < answer_floor.rank()
}

pub fn is_one_sided(rx: Rate, answering: Rate, answer_floor: Rate, cfg: &Config) -> (b: bool)
    ensures
        b == one_sided(rx, answering, answer_floor, cfg@),
{
    rx.at_least(cfg.rx_floor_bps) && !answering.at_least(answer_floor)
}

pub struct AsymDetector {
    pub last: Table<Counters>,
    /// When the counters were last read, in nanoseconds of a steady clock.
    pub last_at: u64,
    /// When the current run of suspicion started, per interface.
    pub since: Table<u64>,
    /// When an alert was last raised, per interface.
    pub alerted: Table<u64>,
    pub conntrack: Conntrack,
}

/// What the detector holds against interfaces.
pub struct Suspicion {
    pub since: Map<Seq<char>, u64>,
    pub alerted: Map<Seq<char>, u64>,
}

impl Suspicion {
    /// The run of suspicion that an interface is in after being judged.
    pub open spec fn run_start(self, name: Seq<char>, now: u64) -> u64 {
        if self.since.dom().contains(name) {
            self.since[name]
        } else {
            now
        }
    }

    /// What is held against interfaces after judging one. A conversation ends
    /// the run of suspicion.
    pub open spec fn judged(self, name: Seq<char>, suspect: bool, now: u64) -> Suspicion {
        if !suspect {
            Suspicion { since: self.since.remove(name), ..self }
        } else {
            Suspicion { since: self.since.insert(name, self.run_start(name, now)), ..self }
        }
    }

    /// How long the suspicion has held, in nanoseconds.
    pub open spec fn held(self, name: Seq<char>, now: u64) -> nat {
        if now >= self.run_start(name, now) {
            (now - self.run_start(name, now)) as nat
        } else {
            0
        }
    }

    /// The interface has not alerted within the cooldown.
    pub open spec fn cooled(self, name: Seq<char>, now: u64, config: ConfigView) -> bool {
        self.alerted.dom().contains(name) ==> elapsed(self.alerted[name], now)
            >= config.cooldown_secs * NANOS
    }

    /// The last question is due: is something here actually reading this?
    pub open spec fn due(
        self,
        name: Seq<char>,
        suspect: bool,
        now: u64,
        config: ConfigView,
    ) -> bool {
        suspect && self.held(name, now) >= config.asym_sustain_secs * NANOS && self.cooled(
            name,
            now,
            config,
        )
    }

    /// What is held against interfaces after judging the first `n` of them.
    pub open spec fn judged_upto(
        self,
        all: Seq<Judged>,
        routing: bool,
        host_tx: Rate,
        now: u64,
        config: ConfigView,
        n: int,
    ) -> Suspicion
        decreases n,
    {
        if n <= 0 {
            self
        } else {
            self.judged_upto(all, routing, host_tx, now, config, n - 1).judged(
                all[n - 1].name@,
                all[n - 1].suspect(routing, host_tx, config),
                now,
            )
        }
    }

    /// Those of the first `n` interfaces about which the last question is due.
    pub open spec fn due_upto(
        self,
        all: Seq<Judged>,
        routing: bool,
        host_tx: Rate,
        now: u64,
        config: ConfigView,
        n: int,
    ) -> Seq<SuspectView>
        decreases n,
    {
        if n <= 0 {
            Seq::empty()
        } else {
            let before = self.judged_upto(all, routing, host_tx, now, config, n - 1);
            let due = self.due_upto(all, routing, host_tx, now, config, n - 1);
            let next = all[n - 1];
            if before.due(next.name@, next.suspect(routing, host_tx, config), now, config) {
                due.push(
                    SuspectView {
                        name: next.name@,
                        held_secs: before.held(next.name@, now) / NANOS as nat,
                        account_floor: next.account_floor,
                    },
                )
            } else {
                due
            }
        }
    }

    /// What is held against interfaces after the last question. Traffic that is
    /// accounted for re-earns the sustain window rather than taking the full
    /// cooldown, so a flood starting behind a long download is noticed soon.
    pub open spec fn concluded(self, name: Seq<char>, accounted_for: bool, now: u64) -> Suspicion {
        if accounted_for {
            Suspicion { since: self.since.remove(name), ..self }
        } else {
            Suspicion { alerted: self.alerted.insert(name, now), ..self }
        }
    }
}

/// The time from one moment to a later one, nothing where it is not later.
pub open spec fn elapsed(from: u64, to: u64) -> nat {
    if to >= from {
        (to - from) as nat
    } else {
        0
    }
}

impl Judged {
    /// The interface looks one-sided, when the host passes traffic on or not.
    pub open spec fn suspect(self, routing: bool, host_tx: Rate, config: ConfigView) -> bool {
        one_sided(
            self.rx,
            if routing {
                host_tx
            } else {
                self.tx
            },
            self.answer_floor,
            config,
        )
    }
}

/// Enough of the inbound traffic is accounted for.
pub open spec fn accounted_for(seen: Corroboration, account_floor: Rate) -> bool {
    match seen.best() {
        Some(rate) => rate.rank() >= account_floor.rank(),
        None => false,
    }
}

impl AsymDetector {
    pub open spec fn wf(self) -> bool {
        &&& self.last.wf()
        &&& self.since.wf()
        &&& self.alerted.wf()
    }

    pub open spec fn suspicion(self) -> Suspicion {
        Suspicion { since: self.since@, alerted: self.alerted@ }
    }

    /// A detector that starts from these counters and this snapshot.
    pub fn new(last: Table<Counters>, now: u64, snapshot: Option<Snapshot>) -> (out: AsymDetector)
        requires
            last.wf(),
        ensures
            out.wf(),
            out.last == last,
            out.last_at == now,
            out.suspicion().since == Map::<Seq<char>, u64>::empty(),
            out.suspicion().alerted == Map::<Seq<char>, u64>::empty(),
            out.conntrack == (Conntrack { last: snapshot, rate: None, gap: None, warned: false }),
    {
        AsymDetector {
            last,
            last_at: now,
            since: Table::new(),
            alerted: Table::new(),
            conntrack: Conntrack::start(snapshot),
        }
    }

    /// Bytes every watched interface moved since the last sample, or None where
    /// no time has passed. Judgement has to wait until all of them are known,
    /// because when this host forwards, the answer is the whole host's.
    pub fn sample(&self, cfg: &Config, current: &Table<Counters>, now: u64) -> (out: Option<
        Vec<Sampled>,
    >)
        ensures
            match out {
                Some(v) => now > self.last_at && sampled_view(v@) == samples_upto(
                    current.entries@,
                    self.last@,
                    cfg@.ignore_interfaces,
                    current.entries@.len() as int,
                ),
                None => now <= self.last_at,
            },
    {
        if now <= self.last_at {
            return None;
        }
        let mut out: Vec<Sampled> = Vec::new();
        let mut i: usize = 0;
        assert(sampled_view(out@) =~= Seq::<SampledView>::empty());
        while i < current.entries.len()
            invariant
                i <= current.entries.len(),
                sampled_view(out@) == samples_upto(
                    current.entries@,
                    self.last@,
                    cfg@.ignore_interfaces,
                    i as int,
                ),
            decreases current.entries.len() - i,
        {
            let name = current.entries[i].0.as_str();
            let counters = current.entries[i].1;
            if !is_listed(&cfg.ignore_interfaces, name) {
                match self.last.get(name) {
                    Some(previous) => {
                        let ghost before = sampled_view(out@);
                        let sampled = Sampled {
                            name: name.to_owned(),
                            rx: delta(previous.rx, counters.rx),
                            tx: delta(previous.tx, counters.tx),
                        };
                        out.push(sampled);
                        assert(sampled_view(out@) =~= before.push(sampled@));
                    },
                    None => {},
                }
            }
            i = i + 1;
        }
        Some(out)
    }

    /// Judge the rates of one interface. Returns for how many seconds it has
    /// been suspect, where the last question is due: is something on this host
    /// actually reading the traffic?
    pub fn judge(
        &mut self,
        cfg: &Config,
        judged: &Judged,
        routing: bool,
        host_tx: Rate,
        now: u64,
    ) -> (out: Option<u64>)
        requires
            old(self).wf(),
        ensures
            final(self).wf(),
            final(self).last == old(self).last,
            final(self).last_at == old(self).last_at,
            final(self).conntrack == old(self).conntrack,
            ({
                let suspect = judged.suspect(routing, host_tx, cfg@);
                let before = old(self).suspicion();
                &&& final(self).suspicion() == before.judged(judged.name@, suspect, now)
                &&& out is Some == before.due(judged.name@, suspect, now, cfg@)
                &&& out is Some ==> out.unwrap() == before.held(judged.name@, now) / NANOS as nat
            }),
    {
        let answering = if routing {
            host_tx
        } else {
            judged.tx
        };
        let name = judged.name.as_str();
        if !is_one_sided(judged.rx, answering, judged.answer_floor, cfg) {
            self.since.remove(name);
            return None;
        }
        let started: u64 = match self.since.get(name) {
            Some(t) => *t,
            None => now,
        };
        self.since.put(judged.name.clone(), started);
        let held: u64 = if now >= started {
            now - started
        } else {
            0
        };
        assert(held == old(self).suspicion().held(name@, now));
        if (held as u128) < (cfg.asym_sustain_secs as u128) * (NANOS as u128) {
            return None;
        }
        let cooled: bool = match self.alerted.get(name) {
            Some(last) => {
                let quiet: u64 = if now >= *last {
                    now - *last
                } else {
                    0
                };
                (quiet as u128) >= (cfg.cooldown_secs as u128) * (NANOS as u128)
            },
            None => true,
        };
        if !cooled {
            return None;
        }
        Some(held / NANOS)
    }

    /// Take up a snapshot and judge the rates of every sampled interface.
    /// Returns whether to warn that accounting is off, and the interfaces about
    /// which the last question is due.
    pub fn tick(
        &mut self,
        cfg: &Config,
        all: &Vec<Judged>,
        routing: bool,
        host_tx: Rate,
        snapshot: Option<Snapshot>,
        now: u64,
    ) -> (out: (bool, Vec<Suspect>))
        requires
            old(self).wf(),
        ensures
            final(self).wf(),
            final(self).last == old(self).last,
            final(self).last_at == old(self).last_at,
            final(self).conntrack == old(self).conntrack.refreshed(snapshot),
            out.0 == old(self).conntrack.warns(snapshot),
            final(self).suspicion() == old(self).suspicion().judged_upto(
                all@,
                routing,
                host_tx,
                now,
                cfg@,
                all@.len() as int,
            ),
            suspects_view(out.1@) == old(self).suspicion().due_upto(
                all@,
                routing,
                host_tx,
                now,
                cfg@,
                all@.len() as int,
            ),
    {
        let ghost before = self.suspicion();
        let warn: bool = self.conntrack.refresh(snapshot);
        let mut due: Vec<Suspect> = Vec::new();
        let mut i: usize = 0;
        assert(suspects_view(due@) =~= Seq::<SuspectView>::empty());
        while i < all.len()
            invariant
                i <= all.len(),
                self.wf(),
                self.last == old(self).last,
                self.last_at == old(self).last_at,
                self.conntrack == old(self).conntrack.refreshed(snapshot),
                self.suspicion() == before.judged_upto(
                    all@,
                    routing,
                    host_tx,
                    now,
                    cfg@,
                    i as int,
                ),
                suspects_view(due@) == before.due_upto(
                    all@,
                    routing,
                    host_tx,
                    now,
                    cfg@,
                    i as int,
                ),
            decreases all.len() - i,
        {
            match self.judge(cfg, &all[i], routing, host_tx, now) {
                Some(held_secs) => {
                    let ghost listed = suspects_view(due@);
                    let suspect = Suspect {
                        name: all[i].name.clone(),
                        held_secs,
                        account_floor: all[i].account_floor,
                    };
                    due.push(suspect);
                    assert(suspects_view(due@) =~= listed.push(suspect@));
                },
                None => {},
            }
            i = i + 1;
        }
        (warn, due)
    }

    /// Answer the last question about an interface. Returns whether an alert is
    /// to be raised.
    pub fn conclude(&mut self, name: &str, account_floor: Rate, seen: &Corroboration, now: u64) -> (
        raise: bool)
        requires
            old(self).wf(),
        ensures
            final(self).wf(),
            final(self).last == old(self).last,
            final(self).last_at == old(self).last_at,
            final(self).conntrack == old(self).conntrack,
            raise == !accounted_for(*seen, account_floor),
            !raise <==> (seen.by_socket matches Some(r) && r.rank() >= account_floor.rank()) || (
            seen.by_conntrack matches Some(r) && r.rank() >= account_floor.rank()),
            final(self).suspicion() == old(self).suspicion().concluded(name@, !raise, now),
    {
        let explained: bool = match seen.accounted() {
            Some(rate) => rate.at_least(account_floor),
            None => false,
        };
        if explained {
            self.since.remove(name);
            return false;
        }
        self.alerted.put(name.to_owned(), now);
        true
    }

    /// End a tick: these counters are what the next one is compared with.
    pub fn finish(&mut self, current: Table<Counters>, now: u64)
        requires
            old(self).wf(),
            current.wf(),
        ensures
            final(self).wf(),
            final(self).last == current,
            final(self).last_at == now,
            final(self).suspicion() == old(self).suspicion(),
            final(self).conntrack == old(self).conntrack,
    {
        self.last = current;
        self.last_at = now;
    }
}

// -- Words --------------------------------------------------------------------

/// What is logged where accounting is found off.
pub fn blind_warning() -> (out: &'static str)
    ensures
        out@
            == "conntrack byte accounting is off — UDP cannot be corroborated, so streams that are being consumed may be reported as unread. Fix: sysctl -w net.netfilter.nf_conntrack_acct=1"@,
{
    "conntrack byte accounting is off — UDP cannot be corroborated, so streams that are being consumed may be reported as unread. Fix: sysctl -w net.netfilter.nf_conntrack_acct=1"
}

/// What is logged where an alert is withheld. The rates are written as a human
/// reads a speed test.
pub open spec fn withheld_text(
    name: Seq<char>,
    seen: Corroboration,
    accounted: Seq<char>,
    inbound: Seq<char>,
) -> Seq<char> {
    "asymmetric-inbound withheld on "@ + name + " — "@ + seen.credited() + " for "@ + accounted
        + " of "@ + inbound + " inbound"@
}

pub fn withheld_line(name: &str, seen: &Corroboration, accounted: &str, inbound: &str) -> (
    out: String)
    ensures
        out@ == withheld_text(name@, *seen, accounted@, inbound@),
{
    let mut out: String = "asymmetric-inbound withheld on ".to_owned();
    out.append(name);
    out.append(" — ");
    out.append(seen.via());
    out.append(" for ");
    out.append(accounted);
    out.append(" of ");
    out.append(inbound);
    out.append(" inbound");
    out
}

/// The rates of an alert, written as a human reads a speed test.
pub struct RateTexts<'a> {
    pub rx: &'a str,
    pub tx: &'a str,
    /// Outbound in percent of inbound, with one decimal place.
    pub percent: &'a str,
    /// What the best-informed source accounts for.
    pub accounted: &'a str,
}

/// The interfaces that this host forwards on, if it does.
pub open spec fn forwards(forwarding: Seq<Seq<char>>) -> bool {
    forwarding.len() > 0
}

/// What the reader of a popup is told last. When UDP could not be checked, the
/// claim has to weaken here, where it is read.
pub open spec fn verdict_text(verified: bool, routing: bool) -> Seq<char> {
    if verified && routing {
        "This host is forwarding, and no interface is passing it on."@
    } else if verified {
        "Nothing on this host appears to be answering it."@
    } else {
        "Whether anything is reading this could not be checked — a video or game stream looks exactly like this."@
    }
}

/// What the sources say, naming only those that actually reported: crediting a
/// silent source with a zero is how a consumed stream gets described as unread.
pub open spec fn evidence_text(seen: Corroboration, accounted: Seq<char>) -> Seq<char> {
    if seen.best() is Some {
        let sources = match (seen.by_socket, seen.by_conntrack) {
            (Some(_), Some(_)) => " Sockets and conntrack together account"@,
            (Some(_), None) => " Sockets account"@,
            (None, _) => " conntrack accounts"@,
        };
        let conclusion = if seen.by_conntrack is Some {
            ", so most of this is arriving unread."@
        } else {
            ", but UDP could not be checked at all: "@ + seen.explanation() + "."@
        };
        sources + " for only "@ + accounted + " of it"@ + conclusion
    } else if seen.gap is Some {
        " Nothing could measure this: "@ + seen.explanation()
            + ". Treat the figures above as unverified until that is resolved."@
    } else {
        " Corroboration did not run, so whether anything is reading this is unverified. Installing collector/ adds conntrack as a second source."@
    }
}

/// The alert about an interface.
pub open spec fn inbound_alert(
    iface: Seq<char>,
    rates: RateTexts,
    held_secs: u64,
    hint: Option<&str>,
    forwarding: Seq<Seq<char>>,
    seen: Corroboration,
) -> AlertView {
    let verified = seen.by_conntrack is Some;
    let opening = match hint {
        Some(h) => "Concurrent firewall drops, which may be unrelated: "@ + h@,
        None => "To identify it: sudo tcpdump -i "@ + iface + " -nn -c 200"@,
    };
    let scope = if forwards(forwarding) {
        " Judged against this host's total output rather than "@ + iface
            + "'s alone, because forwarding is enabled ("@ + text::join(forwarding, ", "@)
            + ") — a router answering on a different interface than it received on is behaving correctly."@
    } else {
        Seq::empty()
    };
    AlertView {
        kind: "asymmetric-inbound"@,
        key: "asym-"@ + iface,
        title: if verified {
            "Unanswered inbound traffic on "@ + iface
        } else {
            "Unverified inbound traffic on "@ + iface
        },
        body: "Receiving "@ + rates.rx@ + ", sending only "@ + rates.tx@ + " ("@ + rates.percent@
            + "%) for "@ + alert::duration_text(held_secs as nat) + ".\n"@ + verdict_text(
            verified,
            forwards(forwarding),
        ),
        detail: opening + scope + evidence_text(seen, rates.accounted@),
        urgency: if verified {
            "critical"@
        } else {
            "normal"@
        },
        popup: true,
    }
}

fn push_evidence(out: &mut String, seen: &Corroboration, accounted: &str)
    ensures
        final(out)@ == old(out)@ + evidence_text(*seen, accounted@),
{
    let ghost start = out@;
    if seen.accounted().is_some() {
        match (seen.by_socket, seen.by_conntrack) {
            (Some(_), Some(_)) => {
                out.append(" Sockets and conntrack together account");
            },
            (Some(_), None) => {
                out.append(" Sockets account");
            },
            (None, _) => {
                out.append(" conntrack accounts");
            },
        }
        out.append(" for only ");
        out.append(accounted);
        out.append(" of it");
        if seen.udp_is_visible() {
            out.append(", so most of this is arriving unread.");
        } else {
            out.append(", but UDP could not be checked at all: ");
            out.append(seen.gap_explanation());
            out.append(".");
        }
    } else if seen.gap.is_some() {
        out.append(" Nothing could measure this: ");
        out.append(seen.gap_explanation());
        out.append(". Treat the figures above as unverified until that is resolved.");
    } else {
        out.append(
            " Corroboration did not run, so whether anything is reading this is unverified. Installing collector/ adds conntrack as a second source.",
        );
    }
    assert(out@ =~= start + evidence_text(*seen, accounted@));
}

/// Build the alert about an interface. `forwarding` are the interfaces that this
/// host forwards on, none where it does not.
pub fn build_alert(
    iface: &str,
    rates: RateTexts,
    held_secs: u64,
    hint: Option<&str>,
    forwarding: &Vec<String>,
    seen: &Corroboration,
) -> (out: Alert)
    ensures
        out@ == inbound_alert(
            iface@,
            rates,
            held_secs,
            hint,
            text::texts(forwarding@),
            *seen,
        ),
{
    let verified: bool = seen.udp_is_visible();
    assert(text::texts(forwarding@).len() == forwarding@.len());
    let routing: bool = forwarding.len() > 0;

    let mut body: String = "Receiving ".to_owned();
    body.append(rates.rx);
    body.append(", sending only ");
    body.append(rates.tx);
    body.append(" (");
    body.append(rates.percent);
    body.append("%) for ");
    body.append(fmt_duration(held_secs).as_str());
    body.append(".\n");
    body.append(
        if verified && routing {
            "This host is forwarding, and no interface is passing it on."
        } else if verified {
            "Nothing on this host appears to be answering it."
        } else {
            "Whether anything is reading this could not be checked — a video or game stream looks exactly like this."
        },
    );

    let mut detail: String = match hint {
        Some(h) => {
            let mut d: String = "Concurrent firewall drops, which may be unrelated: ".to_owned();
            d.append(h);
            d
        },
        None => {
            let mut d: String = "To identify it: sudo tcpdump -i ".to_owned();
            d.append(iface);
            d.append(" -nn -c 200");
            d
        },
    };
    if routing {
        detail.append(" Judged against this host's total output rather than ");
        detail.append(iface);
        detail.append("'s alone, because forwarding is enabled (");
        detail.append(join_texts(forwarding, ", ").as_str());
        detail.append(
            ") — a router answering on a different interface than it received on is behaving correctly.",
        );
    }
    push_evidence(&mut detail, seen, rates.accounted);

    let mut key: String = "asym-".to_owned();
    key.append(iface);
    let mut title: String = if verified {
        "Unanswered inbound traffic on ".to_owned()
    } else {
        "Unverified inbound traffic on ".to_owned()
    };
    title.append(iface);
    let out = Alert {
        kind: "asymmetric-inbound",
        key,
        title,
        body,
        detail,
        urgency: if verified {
            "critical"
        } else {
            "normal"
        },
        popup: true,
    };
    assert(out@.detail =~= inbound_alert(
        iface@,
        rates,
        held_secs,
        hint,
        text::texts(forwarding@),
        *seen,
    ).detail);
    out
}

// -- Laws ---------------------------------------------------------------------

/// A gap in what conntrack can measure drops the rate learned before it, so no
/// stale figure keeps vouching for traffic nobody is watching.
pub proof fn a_gap_drops_the_rate(view: Conntrack, current: Snapshot)
    requires
        !current.measures(),
    ensures
        view.refreshed(Some(current)).rate is None,
        view.refreshed(Some(current)).gap is Some,
{
}

/// No rate is learned across a gap: the first measurable sample after one only
/// becomes the baseline.
pub proof fn no_rate_spans_a_gap(view: Conntrack, blind: Snapshot, first: Snapshot)
    requires
        !blind.measures(),
        first.measures(),
    ensures
        view.refreshed(Some(blind)).refreshed(Some(first)).rate is None,
        view.refreshed(Some(blind)).refreshed(Some(first)).last == Some(first),
{
}

/// Accounting that is off is warned about once per onset: not again until a
/// sample could measure.
pub proof fn a_misconfiguration_is_warned_about_once(
    view: Conntrack,
    first: Snapshot,
    again: Option<Snapshot>,
)
    requires
        !first.conntrack_acct,
    ensures
        !view.refreshed(Some(first)).warns(again),
{
}

/// A sample holds exactly the interfaces that stood in both readings and are not
/// to be ignored, each with what it moved between them, and each once where the
/// reading names it once.
pub proof fn a_sample_holds_what_both_readings_show(
    current: Seq<(String, Counters)>,
    last: Map<Seq<char>, Counters>,
    ignored: Seq<Seq<char>>,
    sampled: SampledView,
)
    ensures
        samples_upto(current, last, ignored, current.len() as int).contains(sampled)
            <==> exists|i: int|
            0 <= i < current.len() && sampled_from(#[trigger] current[i], last, ignored, sampled),
        table::distinct(current) ==> forall|j: int, k: int|
            0 <= j < k < samples_upto(current, last, ignored, current.len() as int).len() ==> (
            #[trigger] samples_upto(current, last, ignored, current.len() as int)[j]).name != (
            #[trigger] samples_upto(current, last, ignored, current.len() as int)[k]).name,
{
    lemma_sampled(current, last, ignored, sampled, current.len() as int);
    if table::distinct(current) {
        lemma_sampled_once(current, last, ignored, current.len() as int);
    }
}

proof fn lemma_sampled_once(
    current: Seq<(String, Counters)>,
    last: Map<Seq<char>, Counters>,
    ignored: Seq<Seq<char>>,
    n: int,
)
    requires
        0 <= n <= current.len(),
        table::distinct(current),
    ensures
        forall|j: int, k: int|
            0 <= j < k < samples_upto(current, last, ignored, n).len() ==> (
            #[trigger] samples_upto(current, last, ignored, n)[j]).name != (#[trigger] samples_upto(
                current,
                last,
                ignored,
                n,
            )[k]).name,
    decreases n,
{
    if n > 0 {
        lemma_sampled_once(current, last, ignored, n - 1);
        let before = samples_upto(current, last, ignored, n - 1);
        let after = samples_upto(current, last, ignored, n);
        assert forall|j: int, k: int| 0 <= j < k < after.len() implies (#[trigger] after[j]).name
            != (#[trigger] after[k]).name by {
            if k < before.len() {
                assert(before[j].name != before[k].name);
            } else {
                assert(after[j] == before[j]);
                assert(before.contains(before[j]));
                lemma_sampled(current, last, ignored, before[j], n - 1);
                let i = choose|i: int|
                    0 <= i < n - 1 && sampled_from(
                        #[trigger] current[i],
                        last,
                        ignored,
                        before[j],
                    );
                assert(current[i].0@ != current[n - 1].0@);
            }
        }
    }
}

/// The sample that an interface of the current reading gives.
pub open spec fn sampled_from(
    now: (String, Counters),
    last: Map<Seq<char>, Counters>,
    ignored: Seq<Seq<char>>,
    sampled: SampledView,
) -> bool {
    &&& sampled.name == now.0@
    &&& last.dom().contains(sampled.name)
    &&& !ignored.contains(sampled.name)
    &&& sampled.rx == moved(last[sampled.name].rx, now.1.rx)
    &&& sampled.tx == moved(last[sampled.name].tx, now.1.tx)
}

proof fn lemma_sampled(
    current: Seq<(String, Counters)>,
    last: Map<Seq<char>, Counters>,
    ignored: Seq<Seq<char>>,
    sampled: SampledView,
    n: int,
)
    requires
        0 <= n <= current.len(),
    ensures
        samples_upto(current, last, ignored, n).contains(sampled) <==> exists|i: int|
            0 <= i < n && sampled_from(#[trigger] current[i], last, ignored, sampled),
    decreases n,
{
    if n > 0 {
        lemma_sampled(current, last, ignored, sampled, n - 1);
        let before = samples_upto(current, last, ignored, n - 1);
        let after = samples_upto(current, last, ignored, n);
        if before.contains(sampled) {
            let k = choose|k: int| 0 <= k < before.len() && before[k] == sampled;
            assert(after[k] == sampled);
        }
        if after.contains(sampled) && !before.contains(sampled) {
            let k = choose|k: int| 0 <= k < after.len() && after[k] == sampled;
            if k < before.len() {
                assert(before[k] == sampled);
            }
            assert(sampled_from(current[n - 1], last, ignored, sampled));
        }
        if sampled_from(current[n - 1], last, ignored, sampled) {
            assert(after[before.len() as int] == sampled);
        }
    }
}

/// A counter that went backwards was reset, and counts as having moved nothing.
pub proof fn a_reset_counter_moves_nothing(before: u64, after: u64)
    ensures
        after < before ==> moved(before, after) == 0,
        after >= before ==> moved(before, after) == after - before,
{
}

/// One sample of an interface: when it was taken, whether it looked one-sided,
/// and whether the traffic would turn out to be accounted for if that were asked.
pub struct Glance {
    pub at: u64,
    pub suspect: bool,
    pub accounted_for: bool,
}

impl Suspicion {
    /// What is held against interfaces after a sample of one of them, the last
    /// question included where it is due.
    pub open spec fn glanced(self, name: Seq<char>, glance: Glance, config: ConfigView) -> Suspicion {
        let judged = self.judged(name, glance.suspect, glance.at);
        if self.due(name, glance.suspect, glance.at, config) {
            judged.concluded(name, glance.accounted_for, glance.at)
        } else {
            judged
        }
    }

    /// What is held against interfaces after the first `n` samples of one.
    pub open spec fn glanced_upto(
        self,
        name: Seq<char>,
        glances: Seq<Glance>,
        config: ConfigView,
        n: int,
    ) -> Suspicion
        decreases n,
    {
        if n <= 0 {
            self
        } else {
            self.glanced_upto(name, glances, config, n - 1).glanced(name, glances[n - 1], config)
        }
    }

    /// The last question is due with the sample at position `n`.
    pub open spec fn due_at(
        self,
        name: Seq<char>,
        glances: Seq<Glance>,
        config: ConfigView,
        n: int,
    ) -> bool {
        self.glanced_upto(name, glances, config, n).due(
            name,
            glances[n].suspect,
            glances[n].at,
            config,
        )
    }

    /// An alert was due with the sample at position `n`, and withheld.
    pub open spec fn withheld_at(
        self,
        name: Seq<char>,
        glances: Seq<Glance>,
        config: ConfigView,
        n: int,
    ) -> bool {
        self.due_at(name, glances, config, n) && glances[n].accounted_for
    }

    /// Every sample from position `s` to position `n` looked one-sided, and no
    /// alert was withheld in between.
    pub open spec fn suspect_since(
        self,
        name: Seq<char>,
        glances: Seq<Glance>,
        config: ConfigView,
        s: int,
        n: int,
    ) -> bool {
        &&& forall|k: int| s <= k <= n ==> (#[trigger] glances[k]).suspect
        &&& forall|k: int| s <= k < n ==> !#[trigger] self.withheld_at(name, glances, config, k)
    }

    /// Where the run of suspicion begins that a sample at position `n` is in.
    spec fn began(
        self,
        name: Seq<char>,
        glances: Seq<Glance>,
        config: ConfigView,
        n: int,
    ) -> int
        decreases n,
    {
        if n > 0 && glances[n - 1].suspect && !self.withheld_at(name, glances, config, n - 1) {
            self.began(name, glances, config, n - 1)
        } else {
            n
        }
    }
}

proof fn lemma_began(
    start: Suspicion,
    name: Seq<char>,
    glances: Seq<Glance>,
    config: ConfigView,
    n: int,
)
    requires
        !start.since.dom().contains(name),
        0 <= n < glances.len(),
    ensures
        ({
            let b = start.began(name, glances, config, n);
            let held = start.glanced_upto(name, glances, config, n);
            &&& 0 <= b <= n
            &&& held.since.dom().contains(name) <==> b < n
            &&& b < n ==> held.since[name] == glances[b].at
            &&& forall|k: int| b <= k < n ==> (#[trigger] glances[k]).suspect
            &&& forall|k: int|
                b <= k < n ==> !#[trigger] start.withheld_at(name, glances, config, k)
            &&& b > 0 ==> !glances[b - 1].suspect || start.withheld_at(
                name,
                glances,
                config,
                b - 1,
            )
        }),
    decreases n,
{
    if n > 0 {
        lemma_began(start, name, glances, config, n - 1);
    }
}

/// The last question is asked about an interface exactly where every sample has
/// looked one-sided for the whole sustain window, reckoned afresh after an alert
/// that was withheld, and the interface's cooldown is over.
pub proof fn only_sustained_suspicion_is_due(
    start: Suspicion,
    name: Seq<char>,
    glances: Seq<Glance>,
    config: ConfigView,
    n: int,
)
    requires
        !start.since.dom().contains(name),
        0 <= n < glances.len(),
        forall|i: int, j: int|
            0 <= i <= j < glances.len() ==> (#[trigger] glances[i]).at <= (
            #[trigger] glances[j]).at,
    ensures
        start.due_at(name, glances, config, n) <==> start.glanced_upto(
            name,
            glances,
            config,
            n,
        ).cooled(name, glances[n].at, config) && exists|s: int|
            0 <= s <= n && #[trigger] start.suspect_since(name, glances, config, s, n)
                && glances[n].at - glances[s].at >= config.asym_sustain_secs * NANOS,
{
    let b = start.began(name, glances, config, n);
    let held = start.glanced_upto(name, glances, config, n);
    lemma_began(start, name, glances, config, n);
    assert(glances[b].at <= glances[n].at);
    assert(held.run_start(name, glances[n].at) == glances[b].at);
    if start.due_at(name, glances, config, n) {
        assert(start.suspect_since(name, glances, config, b, n));
    }
    assert forall|s: int|
        0 <= s <= n && #[trigger] start.suspect_since(
            name,
            glances,
            config,
            s,
            n,
        ) implies glances[b].at <= glances[s].at && glances[n].suspect by {
        assert(glances[n].suspect);
        if s < b {
            assert(glances[b - 1].suspect);
            assert(!start.withheld_at(name, glances, config, b - 1));
        }
    }
}

/// One tick: when it came, the interfaces it judged, whether the host passes
/// traffic on and how much it sends, and what the last question would find for
/// each interface.
pub struct Round {
    pub at: u64,
    pub all: Seq<Judged>,
    pub routing: bool,
    pub host_tx: Rate,
    pub seen: Map<Seq<char>, Corroboration>,
}

/// Where an interface stands among the judged from `i` on; the length where it
/// does not.
pub open spec fn judged_at(all: Seq<Judged>, name: Seq<char>, i: int) -> int
    decreases all.len() - i,
{
    if i < 0 || i >= all.len() {
        all.len() as int
    } else if all[i].name@ == name {
        i
    } else {
        judged_at(all, name, i + 1)
    }
}

/// No interface is judged twice in one tick.
pub open spec fn judged_once(all: Seq<Judged>) -> bool {
    forall|i: int, j: int|
        0 <= i < j < all.len() ==> (#[trigger] all[i]).name@ != (#[trigger] all[j]).name@
}

impl Round {
    /// What this tick saw of the interface at position `i`.
    pub open spec fn glance(self, config: ConfigView, i: int) -> Glance {
        Glance {
            at: self.at,
            suspect: self.all[i].suspect(self.routing, self.host_tx, config),
            accounted_for: accounted_for(self.seen[self.all[i].name@], self.all[i].account_floor),
        }
    }
}

impl Suspicion {
    /// The interfaces about which the last question is due in a tick.
    pub open spec fn due_in(self, round: Round, config: ConfigView) -> Seq<SuspectView> {
        self.due_upto(
            round.all,
            round.routing,
            round.host_tx,
            round.at,
            config,
            round.all.len() as int,
        )
    }

    /// What is held against interfaces once the last question was put about the
    /// first `n` of the suspects.
    pub open spec fn settled(
        self,
        due: Seq<SuspectView>,
        seen: Map<Seq<char>, Corroboration>,
        now: u64,
        n: int,
    ) -> Suspicion
        decreases n,
    {
        if n <= 0 {
            self
        } else {
            let suspect = due[n - 1];
            self.settled(due, seen, now, n - 1).concluded(
                suspect.name,
                accounted_for(seen[suspect.name], suspect.account_floor),
                now,
            )
        }
    }

    /// What is held against interfaces after a whole tick.
    pub open spec fn rounded(self, round: Round, config: ConfigView) -> Suspicion {
        let due = self.due_in(round, config);
        self.judged_upto(
            round.all,
            round.routing,
            round.host_tx,
            round.at,
            config,
            round.all.len() as int,
        ).settled(due, round.seen, round.at, due.len() as int)
    }

    /// What is held against interfaces after the first `n` ticks.
    pub open spec fn rounded_upto(
        self,
        rounds: Seq<Round>,
        config: ConfigView,
        n: int,
    ) -> Suspicion
        decreases n,
    {
        if n <= 0 {
            self
        } else {
            self.rounded_upto(rounds, config, n - 1).rounded(rounds[n - 1], config)
        }
    }

    /// A tick raises an alert about an interface: the last question is due, and
    /// nothing accounts for the traffic.
    pub open spec fn raises(self, round: Round, config: ConfigView, name: Seq<char>) -> bool {
        let due = self.due_in(round, config);
        exists|k: int|
            0 <= k < due.len() && (#[trigger] due[k]).name == name && !accounted_for(
                round.seen[name],
                due[k].account_floor,
            )
    }
}

/// What the first `n` ticks saw of an interface, in order; a tick that did not
/// sample it saw nothing.
pub open spec fn glances_of(
    rounds: Seq<Round>,
    name: Seq<char>,
    config: ConfigView,
    n: int,
) -> Seq<Glance>
    decreases n,
{
    if n <= 0 {
        Seq::empty()
    } else {
        let i = judged_at(rounds[n - 1].all, name, 0);
        if i < rounds[n - 1].all.len() {
            glances_of(rounds, name, config, n - 1).push(rounds[n - 1].glance(config, i))
        } else {
            glances_of(rounds, name, config, n - 1)
        }
    }
}

/// Two states hold the same against an interface.
spec fn alike(a: Suspicion, b: Suspicion, name: Seq<char>) -> bool {
    &&& a.since.dom().contains(name) == b.since.dom().contains(name)
    &&& a.since.dom().contains(name) ==> a.since[name] == b.since[name]
    &&& a.alerted.dom().contains(name) == b.alerted.dom().contains(name)
    &&& a.alerted.dom().contains(name) ==> a.alerted[name] == b.alerted[name]
}

proof fn lemma_judged_at(all: Seq<Judged>, name: Seq<char>, i: int)
    requires
        0 <= i <= all.len(),
    ensures
        i <= judged_at(all, name, i) <= all.len(),
        judged_at(all, name, i) < all.len() ==> all[judged_at(all, name, i)].name@ == name,
        forall|k: int| i <= k < judged_at(all, name, i) ==> (#[trigger] all[k]).name@ != name,
    decreases all.len() - i,
{
    if i < all.len() && all[i].name@ != name {
        lemma_judged_at(all, name, i + 1);
    }
}

proof fn lemma_judging_one_of_many(
    start: Suspicion,
    round: Round,
    config: ConfigView,
    name: Seq<char>,
    n: int,
)
    requires
        0 <= n <= round.all.len(),
        judged_once(round.all),
    ensures
        ({
            let p = judged_at(round.all, name, 0);
            let suspect = round.all[p].suspect(round.routing, round.host_tx, config);
            let after = start.judged_upto(
                round.all,
                round.routing,
                round.host_tx,
                round.at,
                config,
                n,
            );
            let due = start.due_upto(
                round.all,
                round.routing,
                round.host_tx,
                round.at,
                config,
                n,
            );
            &&& p >= n ==> alike(after, start, name)
            &&& p < n ==> alike(after, start.judged(name, suspect, round.at), name)
            &&& (exists|k: int| 0 <= k < due.len() && (#[trigger] due[k]).name == name) <==> (p < n
                && start.due(name, suspect, round.at, config))
            &&& forall|k: int|
                0 <= k < due.len() && (#[trigger] due[k]).name == name ==> due[k].account_floor
                    == round.all[p].account_floor
            &&& forall|j: int, k: int|
                0 <= j < k < due.len() ==> (#[trigger] due[j]).name != (#[trigger] due[k]).name
            &&& forall|k: int|
                0 <= k < due.len() ==> exists|i: int|
                    0 <= i < n && (#[trigger] due[k]).name == (#[trigger] round.all[i]).name@
        }),
    decreases n,
{
    let p = judged_at(round.all, name, 0);
    lemma_judged_at(round.all, name, 0);
    if n > 0 {
        lemma_judging_one_of_many(start, round, config, name, n - 1);
        let all = round.all;
        let next = all[n - 1];
        let suspect = next.suspect(round.routing, round.host_tx, config);
        let before = start.judged_upto(
            all,
            round.routing,
            round.host_tx,
            round.at,
            config,
            n - 1,
        );
        let listed = start.due_upto(all, round.routing, round.host_tx, round.at, config, n - 1);
        let due = start.due_upto(all, round.routing, round.host_tx, round.at, config, n);
        let asked = before.due(next.name@, suspect, round.at, config);
        assert(asked ==> due.len() == listed.len() + 1 && due.last().name == next.name@
            && due.last().account_floor == next.account_floor);
        assert(!asked ==> due == listed);
        assert forall|k: int| 0 <= k < due.len() implies exists|i: int|
            0 <= i < n && (#[trigger] due[k]).name == (#[trigger] all[i]).name@ by {
            if k < listed.len() {
                assert(due[k] == listed[k]);
                let i = choose|i: int|
                    0 <= i < n - 1 && listed[k].name == (#[trigger] all[i]).name@;
                assert(due[k].name == all[i].name@);
            } else {
                assert(due[k].name == all[n - 1].name@);
            }
        }
        assert forall|j: int, k: int| 0 <= j < k < due.len() implies (#[trigger] due[j]).name != (
        #[trigger] due[k]).name by {
            assert(due[j] == listed[j]);
            if k < listed.len() {
                assert(due[k] == listed[k]);
            } else {
                let i = choose|i: int|
                    0 <= i < n - 1 && listed[j].name == (#[trigger] all[i]).name@;
                assert(all[i].name@ != all[n - 1].name@);
            }
        }
        if n - 1 != p {
            assert(next.name@ != name) by {
                if p < n - 1 {
                    assert(all[p].name@ != all[n - 1].name@);
                }
            }
        }
        assert forall|k: int| 0 <= k < due.len() && (#[trigger] due[k]).name
            == name implies due[k].account_floor == all[p].account_floor by {
            if k < listed.len() {
                assert(due[k] == listed[k]);
            }
        }
        if exists|k: int| 0 <= k < listed.len() && (#[trigger] listed[k]).name == name {
            let k = choose|k: int| 0 <= k < listed.len() && (#[trigger] listed[k]).name == name;
            assert(due[k].name == name);
        }
        if exists|k: int| 0 <= k < due.len() && (#[trigger] due[k]).name == name {
            let k = choose|k: int| 0 <= k < due.len() && (#[trigger] due[k]).name == name;
            if k < listed.len() {
                assert(listed[k].name == name);
            }
        }
        if n - 1 == p && asked {
            assert(due[listed.len() as int].name == name);
        }
    }
}

proof fn lemma_settling_one_of_many(
    start: Suspicion,
    due: Seq<SuspectView>,
    seen: Map<Seq<char>, Corroboration>,
    now: u64,
    name: Seq<char>,
    k: int,
    n: int,
)
    requires
        0 <= n <= due.len(),
        0 <= k <= due.len(),
        k < due.len() ==> due[k].name == name,
        forall|j: int| 0 <= j < due.len() && j != k ==> (#[trigger] due[j]).name != name,
    ensures
        k >= n ==> alike(start.settled(due, seen, now, n), start, name),
        k < n ==> alike(
            start.settled(due, seen, now, n),
            start.concluded(name, accounted_for(seen[name], due[k].account_floor), now),
            name,
        ),
    decreases n,
{
    if n > 0 {
        lemma_settling_one_of_many(start, due, seen, now, name, k, n - 1);
        if n - 1 != k {
            assert(due[n - 1].name != name);
        }
    }
}

proof fn lemma_one_round(start: Suspicion, round: Round, config: ConfigView, name: Seq<char>)
    requires
        judged_once(round.all),
    ensures
        ({
            let p = judged_at(round.all, name, 0);
            let glance = round.glance(config, p);
            &&& p == round.all.len() ==> alike(start.rounded(round, config), start, name)
            &&& p < round.all.len() ==> alike(
                start.rounded(round, config),
                start.glanced(name, glance, config),
                name,
            )
            &&& start.raises(round, config, name) <==> (p < round.all.len() && start.due(
                name,
                glance.suspect,
                round.at,
                config,
            ) && !glance.accounted_for)
        }),
{
    let all = round.all.len() as int;
    let p = judged_at(round.all, name, 0);
    let due = start.due_in(round, config);
    let judged = start.judged_upto(
        round.all,
        round.routing,
        round.host_tx,
        round.at,
        config,
        all,
    );
    lemma_judged_at(round.all, name, 0);
    lemma_judging_one_of_many(start, round, config, name, all);
    let k = if exists|k: int| 0 <= k < due.len() && (#[trigger] due[k]).name == name {
        choose|k: int| 0 <= k < due.len() && (#[trigger] due[k]).name == name
    } else {
        due.len() as int
    };
    assert forall|j: int| 0 <= j < due.len() && j != k implies (#[trigger] due[j]).name
        != name by {
        if k < due.len() {
            if j < k {
                assert(due[j].name != due[k].name);
            } else {
                assert(due[k].name != due[j].name);
            }
        }
    }
    lemma_settling_one_of_many(
        judged,
        due,
        round.seen,
        round.at,
        name,
        k,
        due.len() as int,
    );
    if k < due.len() {
        assert(due[k].account_floor == round.all[p].account_floor);
    }
}

proof fn lemma_fewer_glances(
    start: Suspicion,
    name: Seq<char>,
    a: Seq<Glance>,
    b: Seq<Glance>,
    config: ConfigView,
    n: int,
)
    requires
        0 <= n <= a.len(),
        n <= b.len(),
        forall|i: int| 0 <= i < n ==> a[i] == b[i],
    ensures
        start.glanced_upto(name, a, config, n) == start.glanced_upto(name, b, config, n),
    decreases n,
{
    if n > 0 {
        lemma_fewer_glances(start, name, a, b, config, n - 1);
        assert(a[n - 1] == b[n - 1]);
    }
}

proof fn lemma_rounds(
    start: Suspicion,
    rounds: Seq<Round>,
    name: Seq<char>,
    config: ConfigView,
    n: int,
)
    requires
        0 <= n <= rounds.len(),
        forall|r: int| 0 <= r < rounds.len() ==> judged_once((#[trigger] rounds[r]).all),
        forall|r: int, s: int|
            0 <= r <= s < rounds.len() ==> (#[trigger] rounds[r]).at <= (#[trigger] rounds[s]).at,
    ensures
        ({
            let glances = glances_of(rounds, name, config, n);
            &&& alike(
                start.rounded_upto(rounds, config, n),
                start.glanced_upto(name, glances, config, glances.len() as int),
                name,
            )
            &&& forall|i: int, j: int|
                0 <= i <= j < glances.len() ==> (#[trigger] glances[i]).at <= (
                #[trigger] glances[j]).at
            &&& forall|i: int|
                0 <= i < glances.len() ==> exists|r: int|
                    0 <= r < n && (#[trigger] glances[i]).at == (#[trigger] rounds[r]).at
        }),
    decreases n,
{
    if n > 0 {
        lemma_rounds(start, rounds, name, config, n - 1);
        let round = rounds[n - 1];
        let before = start.rounded_upto(rounds, config, n - 1);
        let so_far = glances_of(rounds, name, config, n - 1);
        let glances = glances_of(rounds, name, config, n);
        let p = judged_at(round.all, name, 0);
        lemma_judged_at(round.all, name, 0);
        lemma_one_round(before, round, config, name);
        assert forall|i: int| 0 <= i < glances.len() implies exists|r: int|
            0 <= r < n && (#[trigger] glances[i]).at == (#[trigger] rounds[r]).at by {
            if i < so_far.len() {
                assert(glances[i] == so_far[i]);
                let r = choose|r: int|
                    0 <= r < n - 1 && so_far[i].at == (#[trigger] rounds[r]).at;
                assert(glances[i].at == rounds[r].at);
            } else {
                assert(glances[i].at == rounds[n - 1].at);
            }
        }
        if p < round.all.len() {
            lemma_fewer_glances(start, name, glances, so_far, config, so_far.len() as int);
            assert(glances.last() == round.glance(config, p));
            assert forall|i: int, j: int| 0 <= i <= j < glances.len() implies (
            #[trigger] glances[i]).at <= (#[trigger] glances[j]).at by {
                if j == so_far.len() && i < so_far.len() {
                    assert(glances[i] == so_far[i]);
                    let r = choose|r: int|
                        0 <= r < n - 1 && so_far[i].at == (#[trigger] rounds[r]).at;
                    assert(rounds[r].at <= rounds[n - 1].at);
                } else if j < so_far.len() {
                    assert(glances[i] == so_far[i] && glances[j] == so_far[j]);
                }
            }
        }
    }
}

/// Over any run of ticks, among however many interfaces, a tick raises an alert
/// about an interface that it samples exactly where every sample of it has
/// looked one-sided for the whole sustain window, reckoned afresh after an alert
/// that was withheld, where its cooldown is over, and where nothing accounts for
/// the traffic.
pub proof fn an_alert_needs_suspicion_for_the_whole_window(
    start: Suspicion,
    rounds: Seq<Round>,
    name: Seq<char>,
    config: ConfigView,
    r: int,
)
    requires
        !start.since.dom().contains(name),
        0 <= r < rounds.len(),
        judged_at(rounds[r].all, name, 0) < rounds[r].all.len(),
        forall|k: int| 0 <= k < rounds.len() ==> judged_once((#[trigger] rounds[k]).all),
        forall|j: int, k: int|
            0 <= j <= k < rounds.len() ==> (#[trigger] rounds[j]).at <= (#[trigger] rounds[k]).at,
    ensures
        ({
            let before = start.rounded_upto(rounds, config, r);
            let glances = glances_of(rounds, name, config, r + 1);
            let n = glances.len() - 1;
            before.raises(rounds[r], config, name) <==> before.cooled(name, rounds[r].at, config)
                && !glances[n].accounted_for && exists|s: int|
                0 <= s <= n && #[trigger] start.suspect_since(name, glances, config, s, n)
                    && rounds[r].at - glances[s].at >= config.asym_sustain_secs * NANOS
        }),
{
    let before = start.rounded_upto(rounds, config, r);
    let so_far = glances_of(rounds, name, config, r);
    let glances = glances_of(rounds, name, config, r + 1);
    let n = glances.len() - 1;
    lemma_judged_at(rounds[r].all, name, 0);
    lemma_rounds(start, rounds, name, config, r);
    lemma_rounds(start, rounds, name, config, r + 1);
    lemma_one_round(before, rounds[r], config, name);
    lemma_fewer_glances(start, name, glances, so_far, config, n);
    assert(glances[n] == rounds[r].glance(config, judged_at(rounds[r].all, name, 0)));
    only_sustained_suspicion_is_due(start, name, glances, config, n);
}

/// An alert is raised at most once per cooldown for an interface.
pub proof fn one_alert_per_cooldown(
    held: Suspicion,
    name: Seq<char>,
    now: u64,
    later: u64,
    suspect: bool,
    config: ConfigView,
)
    requires
        elapsed(now, later) < config.cooldown_secs * NANOS,
    ensures
        !held.concluded(name, false, now).due(name, suspect, later, config),
{
}

/// An alert that is withheld has to re-earn the sustain window, and nothing
/// more: the cooldown does not start.
pub proof fn a_withheld_alert_re_earns_the_sustain_window(
    held: Suspicion,
    name: Seq<char>,
    now: u64,
    later: u64,
    config: ConfigView,
)
    requires
        held.cooled(name, later, config),
        config.asym_sustain_secs > 0,
    ensures
        !held.concluded(name, true, now).due(name, true, later, config),
        held.concluded(name, true, now).cooled(name, later, config),
{
    assert(config.asym_sustain_secs * NANOS > 0) by (nonlinear_arith)
        requires
            config.asym_sustain_secs > 0,
    ;
}

/// A host that passes traffic on is judged by all it sends: what goes out through
/// the interface itself makes no difference.
pub proof fn a_router_is_judged_by_all_it_sends(
    a: Judged,
    b: Judged,
    host_tx: Rate,
    config: ConfigView,
)
    requires
        a.rx == b.rx,
        a.answer_floor == b.answer_floor,
    ensures
        a.suspect(true, host_tx, config) == b.suspect(true, host_tx, config),
        host_tx.rank() >= a.answer_floor.rank() ==> !a.suspect(true, host_tx, config),
{
}

/// Judging an interface changes nothing that is held against another.
pub proof fn interfaces_are_judged_apart(
    before: Suspicion,
    name: Seq<char>,
    suspect: bool,
    other: Seq<char>,
    suspect_other: bool,
    now: u64,
    config: ConfigView,
)
    requires
        name != other,
    ensures
        ({
            let after = before.judged(name, suspect, now);
            &&& after.held(other, now) == before.held(other, now)
            &&& after.due(other, suspect_other, now, config) == before.due(
                other,
                suspect_other,
                now,
                config,
            )
        }),
{
}

/// One sample that looks like a conversation ends the run of suspicion.
pub proof fn a_conversation_ends_the_suspicion(
    held: Suspicion,
    name: Seq<char>,
    now: u64,
    later: u64,
)
    ensures
        held.judged(name, false, now).run_start(name, later) == later,
{
}

/// An accusation that nothing could substantiate is not made: where UDP could
/// not be seen, neither the title nor the urgency accuses.
pub proof fn a_blind_alert_does_not_accuse(
    iface: Seq<char>,
    rates: RateTexts,
    held_secs: u64,
    hint: Option<&str>,
    forwarding: Seq<Seq<char>>,
    seen: Corroboration,
)
    requires
        seen.by_conntrack is None,
    ensures
        ({
            let a = inbound_alert(iface, rates, held_secs, hint, forwarding, seen);
            &&& a.title == "Unverified inbound traffic on "@ + iface
            &&& a.urgency == "normal"@
        }),
{
}

proof fn lemma_inbound_words_are_unbroken()
    ensures
        alert::unbroken("Receiving "@),
        alert::unbroken(", sending only "@),
        alert::unbroken(" ("@),
        alert::unbroken("%) for "@),
        alert::unbroken(verdict_text(true, true)),
        alert::unbroken(verdict_text(true, false)),
        alert::unbroken(verdict_text(false, true)),
        alert::unbroken(verdict_text(false, false)),
{
    reveal(alert::unbroken);
    reveal_strlit("Receiving ");
    reveal_strlit(", sending only ");
    reveal_strlit(" (");
    reveal_strlit("%) for ");
    reveal_strlit("This host is forwarding, and no interface is passing it on.");
    reveal_strlit("Nothing on this host appears to be answering it.");
    reveal_strlit(
        "Whether anything is reading this could not be checked — a video or game stream looks exactly like this.",
    );
}

/// A popup about an interface is two lines at most, where no rate is written with
/// a line break.
pub proof fn a_popup_is_two_lines(
    iface: Seq<char>,
    rates: RateTexts,
    held_secs: u64,
    hint: Option<&str>,
    forwarding: Seq<Seq<char>>,
    seen: Corroboration,
)
    requires
        alert::unbroken(rates.rx@),
        alert::unbroken(rates.tx@),
        alert::unbroken(rates.percent@),
    ensures
        alert::two_lines(
            inbound_alert(iface, rates, held_secs, hint, forwarding, seen).body,
        ),
{
    broadcast use alert::lemma_unbroken_sum;
    broadcast use alert::lemma_two_lines_sum;
    broadcast use alert::lemma_duration_is_unbroken;

    lemma_inbound_words_are_unbroken();
    reveal_strlit(".\n");
    assert(alert::two_lines(".\n"@)) by {
        reveal(alert::two_lines);
    }
    let first = "Receiving "@ + rates.rx@ + ", sending only "@ + rates.tx@ + " ("@ + rates.percent@
        + "%) for "@ + alert::duration_text(held_secs as nat);
    alert::lemma_two_lines_after_one(first, ".\n"@);
}

/// Either source alone accounts for the traffic: it is accounted for exactly
/// where what the sockets received, or what conntrack saw, reaches the floor.
pub proof fn either_source_alone_accounts_for_the_traffic(seen: Corroboration, account_floor: Rate)
    ensures
        accounted_for(seen, account_floor) <==> (seen.by_socket matches Some(r) && r.rank()
            >= account_floor.rank()) || (seen.by_conntrack matches Some(r) && r.rank()
            >= account_floor.rank()),
{
}

/// A conclusion that withholds the alert starts the interface's suspicion over
/// and notes no alert; one that raises it notes the moment and leaves the
/// suspicion. Both leave every other interface alone.
pub proof fn a_conclusion_touches_its_interface_only(
    before: Suspicion,
    name: Seq<char>,
    other: Seq<char>,
    now: u64,
)
    requires
        other != name,
    ensures
        !before.concluded(name, true, now).since.dom().contains(name),
        before.concluded(name, true, now).alerted == before.alerted,
        before.concluded(name, false, now).since == before.since,
        before.concluded(name, false, now).alerted.dom().contains(name),
        before.concluded(name, false, now).alerted[name] == now,
        forall|withheld: bool|
            (#[trigger] before.concluded(name, withheld, now)).since.dom().contains(other)
                == before.since.dom().contains(other),
        forall|withheld: bool|
            (#[trigger] before.concluded(name, withheld, now)).since[other] == before.since[other],
        forall|withheld: bool|
            (#[trigger] before.concluded(name, withheld, now)).alerted.dom().contains(other)
                == before.alerted.dom().contains(other),
        forall|withheld: bool|
            (#[trigger] before.concluded(name, withheld, now)).alerted[other]
                == before.alerted[other],
{
}

/// An interface is suspect exactly where enough comes in and too little goes out:
/// out of the host where it routes, and out of the interface where it does not.
pub proof fn an_interface_is_suspect_for_want_of_answers(
    judged: Judged,
    routing: bool,
    host_tx: Rate,
    config: ConfigView,
)
    ensures
        routing ==> (judged.suspect(routing, host_tx, config) <==> judged.rx.rank()
            >= config.rx_floor_bps.rank() && host_tx.rank() < judged.answer_floor.rank()),
        !routing ==> (judged.suspect(routing, host_tx, config) <==> judged.rx.rank()
            >= config.rx_floor_bps.rank() && judged.tx.rank() < judged.answer_floor.rank()),
{
}

/// Suspicion begins at the first suspect look, goes on from there, and ends at
/// the first look that is not suspect.
pub proof fn suspicion_runs_from_the_first_suspect_look(
    before: Suspicion,
    name: Seq<char>,
    first: u64,
    later: u64,
)
    requires
        first <= later,
    ensures
        !before.since.dom().contains(name) ==> before.judged(name, true, first).held(name, later)
            == later - first,
        before.since.dom().contains(name) && before.since[name] <= later ==> before.judged(
            name,
            true,
            first,
        ).held(name, later) == later - before.since[name],
        !before.judged(name, false, first).since.dom().contains(name),
        before.judged(name, false, first).held(name, later) == 0,
        before.judged(name, true, first).alerted == before.alerted,
        before.judged(name, false, first).alerted == before.alerted,
{
}

/// An alert is due exactly where the interface is suspect, has been for the whole
/// window in nanoseconds, and the last alert on it is as far back as the cooldown.
pub proof fn an_alert_is_due_after_the_window_and_the_cooldown(
    s: Suspicion,
    name: Seq<char>,
    suspect: bool,
    now: u64,
    config: ConfigView,
)
    requires
        s.since.dom().contains(name),
        s.since[name] <= now,
        s.alerted.dom().contains(name) ==> s.alerted[name] <= now,
    ensures
        s.due(name, suspect, now, config) <==> suspect && now - s.since[name]
            >= config.asym_sustain_secs * 1_000_000_000 && (s.alerted.dom().contains(name) ==> now
            - s.alerted[name] >= config.cooldown_secs * 1_000_000_000),
{
}

/// A line of counters gives what its first and its ninth number say, under the
/// name before the colon.
pub proof fn a_line_of_counters_reads_back(name: Seq<char>, parts: Seq<Seq<char>>, rx: u64, tx: u64)
    requires
        !name.contains(':'),
        parts.len() >= 9,
        forall|i: int| 0 <= i < parts.len() ==> text::is_word(#[trigger] parts[i]),
        parts[0] == text::dec(rx as nat),
        parts[8] == text::dec(tx as nat),
    ensures
        counters_on(name + seq![':'] + text::join(parts, " "@)) == Some(
            (text::trim(name), Counters { rx, tx }),
        ),
{
    text::a_split_gives_both_sides(name, ':', text::join(parts, " "@));
    text::splitting_words_undoes_joining(parts);
    text::a_number_reads_back(rx as nat);
    text::a_number_reads_back(tx as nat);
}

/// A line without a colon, or with fewer than nine numbers behind it, gives no
/// counters.
pub proof fn a_short_line_gives_no_counters(name: Seq<char>, parts: Seq<Seq<char>>)
    requires
        !name.contains(':'),
        parts.len() < 9,
        forall|i: int| 0 <= i < parts.len() ==> text::is_word(#[trigger] parts[i]),
    ensures
        counters_on(name) is None,
        counters_on(name + seq![':'] + text::join(parts, " "@)) is None,
{
    text::a_split_gives_both_sides(name, ':', text::join(parts, " "@));
    text::splitting_words_undoes_joining(parts);
    text::a_cut_is_at_the_first_separator(name, ':');
    if text::split_once(name, ':') is Some {
        let (h, t) = text::split_once(name, ':').unwrap();
        assert(name[h.len() as int] == ':');
    }
}

/// The first two lines are headers. Each line behind them sets its interface's
/// counters, and the last line on an interface has the last word.
pub proof fn counters_begin_at_the_third_line(
    lines: Seq<Seq<char>>,
    line: Seq<char>,
    name: Seq<char>,
    counters: Counters,
)
    ensures
        lines.len() <= 2 ==> counters_upto(lines, lines.len() as int) == Map::<
            Seq<char>,
            Counters,
        >::empty(),
        lines.len() >= 2 && counters_on(line) == Some((name, counters)) ==> counters_upto(
            lines.push(line),
            lines.len() as int + 1,
        ) == counters_upto(lines, lines.len() as int).insert(name, counters),
        lines.len() >= 2 && counters_on(line) is None ==> counters_upto(
            lines.push(line),
            lines.len() as int + 1,
        ) == counters_upto(lines, lines.len() as int),
{
    lemma_counters_before(lines, line, lines.len() as int);
    if lines.len() >= 2 {
        assert(lines.push(line)[lines.len() as int] == line);
    }
}

proof fn lemma_counters_before(lines: Seq<Seq<char>>, line: Seq<char>, n: int)
    requires
        n <= lines.len(),
    ensures
        counters_upto(lines.push(line), n) == counters_upto(lines, n),
    decreases n,
{
    if n > 2 {
        lemma_counters_before(lines, line, n - 1);
        assert(lines.push(line)[n - 1] == lines[n - 1]);
    }
}

/// A snapshot has a gap where accounting is off, whatever else it shows, and
/// where it is on and no flow is tracked.
pub proof fn a_snapshot_without_accounting_or_flows_has_a_gap(current: Snapshot)
    ensures
        !current.conntrack_acct ==> Conntrack::gap_in(current) == Some(ConntrackGap::AccountingOff),
        current.conntrack_acct && current.conntrack_flows == 0 ==> Conntrack::gap_in(current)
            == Some(ConntrackGap::NoFlows),
        current.conntrack_acct && current.conntrack_flows > 0 ==> Conntrack::gap_in(current) is None,
{
}

/// What conntrack saw is measured between this snapshot and the last, and kept
/// where the two measure nothing. Without a snapshot nothing changes.
pub proof fn conntrack_is_measured_from_one_snapshot_to_the_next(
    view: Conntrack,
    prev: Snapshot,
    now: Snapshot,
)
    requires
        view.last == Some(prev),
        now.conntrack_acct,
        now.conntrack_flows > 0,
    ensures
        view.refreshed(None) == view,
        view.refreshed(Some(now)).gap is None,
        !view.refreshed(Some(now)).warned,
        now.replies_since(prev) is Some ==> view.refreshed(Some(now)).rate == now.replies_since(
            prev,
        ) && view.refreshed(Some(now)).last == Some(now),
        now.replies_since(prev) is None ==> view.refreshed(Some(now)).rate == view.rate,
        now.replies_since(prev) is None && prev.measures() ==> view.refreshed(Some(now)).last
            == Some(prev),
        now.replies_since(prev) is None && !prev.measures() ==> view.refreshed(Some(now)).last
            == Some(now),
        !view.warns(Some(now)),
        !view.warns(None),
{
}

/// The line on a withheld alert credits the source that accounts for more, and
/// the sockets where both account for as much.
pub proof fn a_withheld_alert_credits_the_larger_source(
    name: Seq<char>,
    seen: Corroboration,
    accounted: Seq<char>,
    inbound: Seq<char>,
)
    ensures
        ({
            let sockets = "asymmetric-inbound withheld on "@ + name + " — "@ + "sockets account"@
                + " for "@ + accounted + " of "@ + inbound + " inbound"@;
            let conntrack = "asymmetric-inbound withheld on "@ + name + " — "@
                + "conntrack accounts"@ + " for "@ + accounted + " of "@ + inbound + " inbound"@;
            let said = withheld_text(name, seen, accounted, inbound);
            match (seen.by_socket, seen.by_conntrack) {
                (Some(a), Some(b)) => (a.rank() >= b.rank() ==> said == sockets) && (b.rank()
                    > a.rank() ==> said == conntrack) && seen.best() == (if b.rank() > a.rank() {
                    Some(b)
                } else {
                    Some(a)
                }),
                (Some(a), None) => said == sockets && seen.best() == Some(a),
                (None, Some(b)) => said == conntrack && seen.best() == Some(b),
                (None, None) => seen.best() is None,
            }
        }),
{
}

/// An alert on inbound traffic goes by its interface, and pops up. It is critical
/// and calls the traffic unanswered exactly where conntrack was there to tell.
pub proof fn only_a_checked_alert_is_critical(
    iface: Seq<char>,
    rates: RateTexts,
    held_secs: u64,
    hint: Option<&str>,
    forwarding: Seq<Seq<char>>,
    seen: Corroboration,
)
    ensures
        ({
            let a = inbound_alert(iface, rates, held_secs, hint, forwarding, seen);
            &&& a.kind == "asymmetric-inbound"@
            &&& a.key == "asym-"@ + iface
            &&& a.popup
            &&& seen.by_conntrack is Some ==> a.urgency == "critical"@ && a.title
                == "Unanswered inbound traffic on "@ + iface
            &&& seen.by_conntrack is None ==> a.urgency == "normal"@ && a.title
                == "Unverified inbound traffic on "@ + iface
            &&& a.body == "Receiving "@ + rates.rx@ + ", sending only "@ + rates.tx@ + " ("@
                + rates.percent@ + "%) for "@ + alert::duration_text(held_secs as nat) + ".\n"@ + (
            if seen.by_conntrack is None {
                "Whether anything is reading this could not be checked — a video or game stream looks exactly like this."@
            } else if forwarding.len() > 0 {
                "This host is forwarding, and no interface is passing it on."@
            } else {
                "Nothing on this host appears to be answering it."@
            })
        }),
{
}

/// The detail begins with the firewall's hint where there is one and with how to
/// look where there is none, says so where the whole host was judged, and ends
/// with what the sources accounted for.
pub proof fn the_detail_says_what_it_rests_on(
    iface: Seq<char>,
    rates: RateTexts,
    held_secs: u64,
    hint: &str,
    seen: Corroboration,
    forwarding: Seq<Seq<char>>,
)
    ensures
        ({
            let none = Seq::<Seq<char>>::empty();
            let told = inbound_alert(iface, rates, held_secs, Some(hint), none, seen);
            let untold = inbound_alert(iface, rates, held_secs, None, none, seen);
            let routed = inbound_alert(iface, rates, held_secs, Some(hint), forwarding, seen);
            let end = evidence_text(seen, rates.accounted@);
            &&& told.detail == "Concurrent firewall drops, which may be unrelated: "@ + hint@ + end
            &&& untold.detail == "To identify it: sudo tcpdump -i "@ + iface + " -nn -c 200"@ + end
            &&& forwarding.len() > 0 ==> routed.detail
                == "Concurrent firewall drops, which may be unrelated: "@ + hint@ + (
            " Judged against this host's total output rather than "@ + iface
                + "'s alone, because forwarding is enabled ("@ + text::join(forwarding, ", "@)
                + ") — a router answering on a different interface than it received on is behaving correctly."@)
                + end
        }),
{
    let none = Seq::<Seq<char>>::empty();
    let told = inbound_alert(iface, rates, held_secs, Some(hint), none, seen);
    let untold = inbound_alert(iface, rates, held_secs, None, none, seen);
    let end = evidence_text(seen, rates.accounted@);
    assert(told.detail =~= "Concurrent firewall drops, which may be unrelated: "@ + hint@ + end);
    assert(untold.detail =~= "To identify it: sudo tcpdump -i "@ + iface + " -nn -c 200"@ + end);
}

/// The evidence names the sources that reported and what they account for. It
/// vouches for the figures only with conntrack, says why conntrack is missing,
/// and admits it where nothing was measured.
pub proof fn the_evidence_names_the_sources_that_reported(
    a: Rate,
    b: Rate,
    gap: Option<ConntrackGap>,
    accounted: Seq<char>,
)
    ensures
        ({
            let why = match gap {
                Some(
                    ConntrackGap::AccountingOff,
                ) => "conntrack byte accounting is off, so enable net.netfilter.nf_conntrack_acct=1"@,
                Some(ConntrackGap::NoFlows) => "conntrack had no tracked flows to measure"@,
                None => "conntrack did not report"@,
            };
            let both = Corroboration { by_socket: Some(a), by_conntrack: Some(b), gap };
            let sockets = Corroboration { by_socket: Some(a), by_conntrack: None, gap };
            let flows = Corroboration { by_socket: None, by_conntrack: Some(b), gap };
            let neither = Corroboration { by_socket: None, by_conntrack: None, gap };
            &&& evidence_text(both, accounted) == " Sockets and conntrack together account"@
                + " for only "@ + accounted + " of it"@ + ", so most of this is arriving unread."@
            &&& evidence_text(flows, accounted) == " conntrack accounts"@ + " for only "@
                + accounted + " of it"@ + ", so most of this is arriving unread."@
            &&& evidence_text(sockets, accounted) == " Sockets account"@ + " for only "@ + accounted
                + " of it"@ + (", but UDP could not be checked at all: "@ + why + "."@)
            &&& gap is Some ==> evidence_text(neither, accounted)
                == " Nothing could measure this: "@ + why
                + ". Treat the figures above as unverified until that is resolved."@
            &&& gap is None ==> evidence_text(neither, accounted)
                == " Corroboration did not run, so whether anything is reading this is unverified. Installing collector/ adds conntrack as a second source."@
        }),
{
}

/// A counter moves by what it rose.
pub proof fn a_counter_moves_by_its_rise(before: u64, after: u64)
    requires
        before <= after,
    ensures
        before + moved(before, after) == after,
{
}

/// Interfaces are judged in order. One that is due is handed on with its name, the
/// whole seconds that it has been suspect, and the floor that it was given.
pub proof fn a_suspect_is_handed_on_with_its_seconds(
    s: Suspicion,
    all: Seq<Judged>,
    routing: bool,
    host_tx: Rate,
    now: u64,
    config: ConfigView,
    n: int,
)
    requires
        0 <= n < all.len(),
    ensures
        ({
            let before = s.judged_upto(all, routing, host_tx, now, config, n);
            let name = all[n].name@;
            let suspect = all[n].suspect(routing, host_tx, config);
            let due = s.due_upto(all, routing, host_tx, now, config, n);
            let after = s.due_upto(all, routing, host_tx, now, config, n + 1);
            &&& s.judged_upto(all, routing, host_tx, now, config, 0) == s
            &&& s.due_upto(all, routing, host_tx, now, config, 0).len() == 0
            &&& s.judged_upto(all, routing, host_tx, now, config, n + 1) == before.judged(
                name,
                suspect,
                now,
            )
            &&& !before.due(name, suspect, now, config) ==> after == due
            &&& before.due(name, suspect, now, config) ==> after.len() == due.len() + 1
                && after.drop_last() == due && after.last().name == name
                && after.last().account_floor == all[n].account_floor && 1_000_000_000
                * after.last().held_secs <= before.held(name, now) < 1_000_000_000 * (
            after.last().held_secs + 1)
        }),
{
    let before = s.judged_upto(all, routing, host_tx, now, config, n);
    let name = all[n].name@;
    if before.due(name, all[n].suspect(routing, host_tx, config), now, config) {
        let due = s.due_upto(all, routing, host_tx, now, config, n);
        let after = s.due_upto(all, routing, host_tx, now, config, n + 1);
        assert(after.drop_last() =~= due);
    }
}

} // verus!
