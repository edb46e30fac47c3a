//! Tunables, loaded from a plain `key = value` file.
//!
//! Every key is optional; anything missing falls back to the defaults below.
//! Unknown keys are reported but ignored, and a value that cannot be read or
//! lies out of range keeps what stood before, so a stale configuration never
//! stops the service from starting.

use vstd::prelude::*;

use crate::rate::Rate;
use crate::table;
use crate::table::Table;
use crate::text;
use crate::text::{
    after_prefix, begins_with, cut_once, dec_text, find_char, copy_range, spells, join_texts, push_dec,
    read_unsigned, split_char, split_lines, to_chars, to_text, to_texts,
    trimmed,
};

verus! {

// -- Data structures ----------------------------------------------------------

/// What becomes of answers to this host's own service discovery.
#[derive(Clone, Copy, Debug, PartialEq, Eq, Structural)]
pub enum DiscoveryReplies {
    /// Recorded; no popup where a local socket corroborates that this host asked.
    Quiet,
    /// Recorded, with a popup.
    Alert,
    /// Discarded before any detector sees them.
    Ignore,
}

pub struct Config {
    /// Seconds between interface samples.
    pub interval_secs: u64,
    /// Inbound bits/sec below which a flow is never interesting.
    pub rx_floor_bps: Rate,
    /// Outbound must exceed this fraction of inbound to look like a conversation.
    pub asym_ratio: Rate,
    /// How long the asymmetry must hold before alerting, in seconds.
    pub asym_sustain_secs: u64,
    /// Interfaces to skip entirely.
    pub ignore_interfaces: Vec<String>,
    /// Before alerting on asymmetry, ask whether an established socket is
    /// actually reading the traffic.
    pub socket_corroboration: bool,
    /// Fraction of an interface's inbound that must be accounted for before the
    /// traffic counts as wanted and the alert is dropped.
    pub socket_account_ratio: Rate,
    /// Kernel-log pattern identifying a dropped packet.
    pub block_pattern: String,
    /// Minimum logged drops before a flow is worth reporting.
    pub block_min_events: usize,
    /// Sliding window for counting drops, in seconds.
    pub block_window_secs: u64,
    /// A flow must persist at least this long to count as sustained.
    pub block_min_span_secs: u64,
    /// Destination ports to discard outright.
    pub ignore_ports: Vec<u16>,
    /// What becomes of answers to this host's own discovery.
    pub discovery_replies: DiscoveryReplies,
    /// Rolling window for judging this host's own blocked traffic, in seconds.
    pub self_window_secs: u64,
    /// Alert once its own multicast has been dropped in this many distinct
    /// minutes of the window.
    pub self_min_active_minutes: usize,
    /// Locally-sourced unicast on the input path has no benign explanation, so
    /// it needs only enough records to rule out a one-off.
    pub self_unicast_min_events: u64,
    /// Watch the kernel's protocol counters.
    pub watch_proto: bool,
    /// Datagrams per second delivered to a port with no socket, above which
    /// something is persistently talking to a port nothing serves.
    pub noports_min_rate: Rate,
    /// Packets per second discarded because a receive queue was full.
    pub rcvbuf_min_rate: Rate,
    /// How long either rate must hold before alerting, in seconds.
    pub proto_sustain_secs: u64,
    /// Names chosen for devices, keyed by lowercase MAC or by address.
    pub names: Table<String>,
    /// Report when IPv6 addressing becomes active where there was none.
    pub watch_ipv6: bool,
    /// Minimum seconds between repeat alerts for the same subject.
    pub cooldown_secs: u64,
    /// Whether to raise desktop notifications.
    pub notify: bool,
    /// Command an alert's button runs, split on whitespace. Empty means detect
    /// a terminal emulator, `off` means no button.
    pub tui_command: String,
}

pub struct ConfigView {
    pub interval_secs: u64,
    pub rx_floor_bps: Rate,
    pub asym_ratio: Rate,
    pub asym_sustain_secs: u64,
    pub ignore_interfaces: Seq<Seq<char>>,
    pub socket_corroboration: bool,
    pub socket_account_ratio: Rate,
    pub block_pattern: Seq<char>,
    pub block_min_events: usize,
    pub block_window_secs: u64,
    pub block_min_span_secs: u64,
    pub ignore_ports: Seq<u16>,
    pub discovery_replies: DiscoveryReplies,
    pub self_window_secs: u64,
    pub self_min_active_minutes: usize,
    pub self_unicast_min_events: u64,
    pub watch_proto: bool,
    pub noports_min_rate: Rate,
    pub rcvbuf_min_rate: Rate,
    pub proto_sustain_secs: u64,
    pub names: Map<Seq<char>, Seq<char>>,
    pub watch_ipv6: bool,
    pub cooldown_secs: u64,
    pub notify: bool,
    pub tui_command: Seq<char>,
}

/// A table of strings by what the strings spell.
pub open spec fn spelled_names(names: Map<Seq<char>, String>) -> Map<Seq<char>, Seq<char>> {
    names.map_values(|s: String| s@)
}

impl View for Config {
    type V = ConfigView;

    open spec fn view(&self) -> ConfigView {
        ConfigView {
            interval_secs: self.interval_secs,
            rx_floor_bps: self.rx_floor_bps,
            asym_ratio: self.asym_ratio,
            asym_sustain_secs: self.asym_sustain_secs,
            ignore_interfaces: text::texts(self.ignore_interfaces@),
            socket_corroboration: self.socket_corroboration,
            socket_account_ratio: self.socket_account_ratio,
            block_pattern: self.block_pattern@,
            block_min_events: self.block_min_events,
            block_window_secs: self.block_window_secs,
            block_min_span_secs: self.block_min_span_secs,
            ignore_ports: self.ignore_ports@,
            discovery_replies: self.discovery_replies,
            self_window_secs: self.self_window_secs,
            self_min_active_minutes: self.self_min_active_minutes,
            self_unicast_min_events: self.self_unicast_min_events,
            watch_proto: self.watch_proto,
            noports_min_rate: self.noports_min_rate,
            rcvbuf_min_rate: self.rcvbuf_min_rate,
            proto_sustain_secs: self.proto_sustain_secs,
            names: spelled_names(self.names@),
            watch_ipv6: self.watch_ipv6,
            cooldown_secs: self.cooldown_secs,
            notify: self.notify,
            tui_command: self.tui_command@,
        }
    }
}

impl ConfigView {
    /// The defaults: a 1 Mbps inbound floor, a 2% asymmetry ratio held for 60s,
    /// 4 drop records spanning 2 minutes, a 30-minute cooldown per subject, no
    /// ignored ports, and discovery replies recorded quietly.
    pub open spec fn standard() -> ConfigView {
        ConfigView {
            interval_secs: 10,
            rx_floor_bps: Rate { bits: 0x412e_8480_0000_0000 },
            asym_ratio: Rate { bits: 0x3f94_7ae1_47ae_147b },
            asym_sustain_secs: 60,
            ignore_interfaces: seq!["lo"@, "tailscale0"@],
            socket_corroboration: true,
            socket_account_ratio: Rate { bits: 0x3fe6_6666_6666_6666 },
            block_pattern: "UFW BLOCK"@,
            block_min_events: 4,
            block_window_secs: 900,
            block_min_span_secs: 120,
            ignore_ports: Seq::empty(),
            discovery_replies: DiscoveryReplies::Quiet,
            self_window_secs: 3600,
            self_min_active_minutes: 30,
            self_unicast_min_events: 4,
            watch_proto: true,
            noports_min_rate: Rate { bits: 0x4014_0000_0000_0000 },
            rcvbuf_min_rate: Rate { bits: 0x4024_0000_0000_0000 },
            proto_sustain_secs: 60,
            names: Map::empty(),
            watch_ipv6: true,
            cooldown_secs: 1800,
            notify: true,
            tui_command: Seq::empty(),
        }
    }

    /// Thresholds are finite doubles that are at least zero, and the fractions
    /// among them at most one.
    pub open spec fn sane(self) -> bool {
        &&& self.rx_floor_bps.magnitude()
        &&& self.asym_ratio.fraction()
        &&& self.socket_account_ratio.fraction()
        &&& self.noports_min_rate.magnitude()
        &&& self.rcvbuf_min_rate.magnitude()
    }
}

impl Default for Config {
    fn default() -> (out: Config)
        ensures
            out.wf(),
            out@ == ConfigView::standard(),
    {
        let mut ignored: Vec<String> = Vec::new();
        ignored.push("lo".to_owned());
        ignored.push("tailscale0".to_owned());
        assert(text::texts(ignored@) =~= seq!["lo"@, "tailscale0"@]);
        let out = Config {
            interval_secs: 10,
            rx_floor_bps: Rate { bits: 0x412e_8480_0000_0000 },
            asym_ratio: Rate { bits: 0x3f94_7ae1_47ae_147b },
            asym_sustain_secs: 60,
            ignore_interfaces: ignored,
            socket_corroboration: true,
            socket_account_ratio: Rate { bits: 0x3fe6_6666_6666_6666 },
            block_pattern: "UFW BLOCK".to_owned(),
            block_min_events: 4,
            block_window_secs: 900,
            block_min_span_secs: 120,
            ignore_ports: Vec::new(),
            discovery_replies: DiscoveryReplies::Quiet,
            self_window_secs: 3600,
            self_min_active_minutes: 30,
            self_unicast_min_events: 4,
            watch_proto: true,
            noports_min_rate: Rate { bits: 0x4014_0000_0000_0000 },
            rcvbuf_min_rate: Rate { bits: 0x4024_0000_0000_0000 },
            proto_sustain_secs: 60,
            names: Table::new(),
            watch_ipv6: true,
            cooldown_secs: 1800,
            notify: true,
            tui_command: String::new(),
        };
        assert(spelled_names(out.names@) =~= Map::<Seq<char>, Seq<char>>::empty());
        assert(out.tui_command@ =~= Seq::<char>::empty());
        out
    }
}

impl Config {
    pub open spec fn wf(self) -> bool {
        self.names.wf()
    }
}

// -- Single values ------------------------------------------------------------

pub fn set_u64(slot: &mut u64, value: &Vec<char>) -> (ok: bool)
    ensures
        ok == text::unsigned(value@, u64::MAX as nat) is Some,
        *final(slot) == match text::unsigned(value@, u64::MAX as nat) {
            Some(n) => n as u64,
            None => *old(slot),
        },
{
    match read_unsigned(value, u64::MAX) {
        Some(n) => {
            *slot = n;
            true
        },
        None => false,
    }
}

pub fn set_usize(slot: &mut usize, value: &Vec<char>) -> (ok: bool)
    ensures
        ok == text::unsigned(value@, usize::MAX as nat) is Some,
        *final(slot) == match text::unsigned(value@, usize::MAX as nat) {
            Some(n) => n as usize,
            None => *old(slot),
        },
{
    match read_unsigned(value, usize::MAX as u64) {
        Some(n) => {
            *slot = n as usize;
            true
        },
        None => false,
    }
}

/// The fraction that the pattern of a double gives, if it is one.
pub open spec fn ratio_of(double: Option<u64>) -> Option<Rate> {
    match double {
        Some(bits) => if (Rate { bits }).fraction() {
            Some(Rate { bits })
        } else {
            None
        },
        None => None,
    }
}

/// The magnitude that the pattern of a double gives, if it is one and is at
/// least `min`.
pub open spec fn magnitude_of(double: Option<u64>, min: Rate) -> Option<Rate> {
    match double {
        Some(bits) => if (Rate { bits }).magnitude() && (Rate { bits }).rank() >= min.rank() {
            Some(Rate { bits })
        } else {
            None
        },
        None => None,
    }
}

/// A fraction: finite and inside [0, 1]. `asym_ratio = -1` reads fine as a
/// double and would then silently disable the detector it configures, which is
/// the kind of typo that should be a warning, not a behaviour.
///
/// `double` is the pattern of the double that the value writes, if it writes
/// one.
pub fn set_ratio(slot: &mut Rate, double: Option<u64>) -> (ok: bool)
    ensures
        ok == ratio_of(double) is Some,
        *final(slot) == match ratio_of(double) {
            Some(r) => r,
            None => *old(slot),
        },
{
    match double {
        Some(bits) => {
            let r = Rate { bits };
            if r.is_fraction() {
                *slot = r;
                true
            } else {
                false
            }
        },
        None => false,
    }
}

/// A magnitude: finite and at least `min`. NaN fails every comparison it later
/// feeds, which reads as "never alert"; refuse it here instead.
pub fn set_f64_at_least(slot: &mut Rate, double: Option<u64>, min: Rate) -> (ok: bool)
    requires
        min.magnitude(),
    ensures
        ok == magnitude_of(double, min) is Some,
        *final(slot) == match magnitude_of(double, min) {
            Some(r) => r,
            None => *old(slot),
        },
{
    match double {
        Some(bits) => {
            let r = Rate { bits };
            if r.is_magnitude() && r.at_least(min) {
                *slot = r;
                true
            } else {
                false
            }
        },
        None => false,
    }
}

/// Words that switch something on; any other word switches it off.
pub open spec fn switched_on(value: Seq<char>) -> bool {
    value == "1"@ || value == "true"@ || value == "yes"@ || value == "on"@
}

fn is_on(value: &Vec<char>) -> (b: bool)
    ensures
        b == switched_on(value@),
{
    spells(value, "1") || spells(value, "true") || spells(value, "yes") || spells(value, "on")
}

/// The pieces between commas, trimmed, from position `i` on, without the empty
/// ones.
pub open spec fn entries_from(pieces: Seq<Seq<char>>, i: int) -> Seq<Seq<char>>
    decreases pieces.len() - i,
{
    if i < 0 || i >= pieces.len() {
        Seq::empty()
    } else if text::trim(pieces[i]).len() == 0 {
        entries_from(pieces, i + 1)
    } else {
        seq![text::trim(pieces[i])] + entries_from(pieces, i + 1)
    }
}

/// The entries of a comma-separated list.
pub open spec fn list_of(value: Seq<char>) -> Seq<Seq<char>> {
    entries_from(text::pieces(value, ','), 0)
}

fn read_list(value: &Vec<char>) -> (out: Vec<Vec<char>>)
    ensures
        text::spelled(out@) == list_of(value@),
{
    let pieces = split_char(value, ',');
    let ghost model = text::pieces(value@, ',');
    let mut out: Vec<Vec<char>> = Vec::new();
    let mut i: usize = 0;
    assert(text::spelled(out@) + entries_from(model, 0) =~= list_of(value@));
    while i < pieces.len()
        invariant
            i <= pieces.len(),
            model == text::spelled(pieces@),
            text::spelled(out@) + entries_from(model, i as int) == list_of(value@),
        decreases pieces.len() - i,
    {
        assert(model[i as int] == pieces@[i as int]@);
        let piece = trimmed(&pieces[i]);
        if piece.len() > 0 {
            let ghost before = text::spelled(out@);
            let ghost rest = entries_from(model, i + 1);
            out.push(piece);
            assert(text::spelled(out@) =~= before.push(piece@));
            assert(text::spelled(out@) + rest =~= before + (seq![piece@] + rest));
        }
        i = i + 1;
    }
    assert(text::spelled(out@) + entries_from(model, i as int) =~= text::spelled(out@));
    out
}

/// The ports that a list writes, all of them or none: a typo in one entry must
/// not silently widen the blind spot.
pub open spec fn ports_of(list: Seq<Seq<char>>) -> Option<Seq<u16>>
    decreases list.len(),
{
    if list.len() == 0 {
        Some(Seq::empty())
    } else {
        match (ports_of(list.drop_last()), text::unsigned(list.last(), u16::MAX as nat)) {
            (Some(ports), Some(n)) => Some(ports.push(n as u16)),
            _ => None,
        }
    }
}

proof fn lemma_one_bad_port_spoils_all(list: Seq<Seq<char>>, n: int)
    requires
        0 < n <= list.len(),
        ports_of(list.take(n)) is None,
    ensures
        ports_of(list) is None,
    decreases list.len() - n,
{
    if n < list.len() {
        assert(list.take(n + 1).drop_last() =~= list.take(n));
        lemma_one_bad_port_spoils_all(list, n + 1);
    } else {
        assert(list.take(n) =~= list);
    }
}

fn read_ports(list: &Vec<Vec<char>>) -> (out: Option<Vec<u16>>)
    ensures
        match out {
            Some(v) => ports_of(text::spelled(list@)) == Some(v@),
            None => ports_of(text::spelled(list@)) is None,
        },
{
    let ghost model = text::spelled(list@);
    let mut out: Vec<u16> = Vec::new();
    let mut i: usize = 0;
    assert(model.take(0) =~= Seq::<Seq<char>>::empty());
    while i < list.len()
        invariant
            i <= list.len(),
            model == text::spelled(list@),
            ports_of(model.take(i as int)) == Some(out@),
        decreases list.len() - i,
    {
        assert(model.take(i + 1).drop_last() =~= model.take(i as int));
        assert(model.take(i + 1).last() == list@[i as int]@);
        match read_unsigned(&list[i], u16::MAX as u64) {
            Some(n) => {
                out.push(n as u16);
            },
            None => {
                proof {
                    lemma_one_bad_port_spoils_all(model, i + 1);
                }
                return None;
            },
        }
        i = i + 1;
    }
    assert(model.take(i as int) =~= model);
    Some(out)
}

/// The setting that a word names.
pub open spec fn replies_of(value: Seq<char>) -> Option<DiscoveryReplies> {
    if value == "quiet"@ {
        Some(DiscoveryReplies::Quiet)
    } else if value == "alert"@ {
        Some(DiscoveryReplies::Alert)
    } else if value == "ignore"@ {
        Some(DiscoveryReplies::Ignore)
    } else {
        None
    }
}

// -- Settings -----------------------------------------------------------------

/// What became of one setting.
#[derive(Clone, Copy, Debug, PartialEq, Eq, Structural)]
pub enum Outcome {
    Taken,
    /// The value could not be read or lies out of range; the previous one stays.
    Refused,
    /// There is no such key; nothing changes.
    Unknown,
}

/// What a value that may have been read makes of a configuration.
pub open spec fn put<T>(
    read: Option<T>,
    with: spec_fn(T) -> ConfigView,
    before: ConfigView,
) -> (ConfigView, Outcome) {
    match read {
        Some(v) => (with(v), Outcome::Taken),
        None => (before, Outcome::Refused),
    }
}

/// The device that a key `name <mac|ip>` names.
pub open spec fn named_subject(key: Seq<char>) -> Seq<char> {
    text::lowercased(text::trim(key.skip("name "@.len() as int)))
}

impl ConfigView {
    /// The settings on how interface traffic is judged.
    pub open spec fn set_traffic(
        self,
        key: Seq<char>,
        value: Seq<char>,
        double: Option<u64>,
    ) -> (ConfigView, Outcome) {
        if key == "interval_secs"@ {
            put(
                text::unsigned(value, u64::MAX as nat),
                |n: nat| ConfigView { interval_secs: n as u64, ..self },
                self,
            )
        } else if key == "rx_floor_bps"@ {
            put(
                magnitude_of(double, Rate { bits: 0 }),
                |r: Rate| ConfigView { rx_floor_bps: r, ..self },
                self,
            )
        } else if key == "asym_ratio"@ {
            put(ratio_of(double), |r: Rate| ConfigView { asym_ratio: r, ..self }, self)
        } else if key == "asym_sustain_secs"@ {
            put(
                text::unsigned(value, u64::MAX as nat),
                |n: nat| ConfigView { asym_sustain_secs: n as u64, ..self },
                self,
            )
        } else if key == "socket_corroboration"@ {
            (ConfigView { socket_corroboration: switched_on(value), ..self }, Outcome::Taken)
        } else if key == "socket_account_ratio"@ {
            put(ratio_of(double), |r: Rate| ConfigView { socket_account_ratio: r, ..self }, self)
        } else if key == "ignore_interfaces"@ {
            (ConfigView { ignore_interfaces: list_of(value), ..self }, Outcome::Taken)
        } else {
            (self, Outcome::Unknown)
        }
    }

    /// The settings on how firewall drops are judged.
    pub open spec fn set_drops(self, key: Seq<char>, value: Seq<char>) -> (ConfigView, Outcome) {
        if key == "block_pattern"@ {
            (ConfigView { block_pattern: value, ..self }, Outcome::Taken)
        } else if key == "block_min_events"@ {
            put(
                text::unsigned(value, usize::MAX as nat),
                |n: nat| ConfigView { block_min_events: n as usize, ..self },
                self,
            )
        } else if key == "block_window_secs"@ {
            put(
                text::unsigned(value, u64::MAX as nat),
                |n: nat| ConfigView { block_window_secs: n as u64, ..self },
                self,
            )
        } else if key == "block_min_span_secs"@ {
            put(
                text::unsigned(value, u64::MAX as nat),
                |n: nat| ConfigView { block_min_span_secs: n as u64, ..self },
                self,
            )
        } else if key == "ignore_ports"@ {
            put(ports_of(list_of(value)), |p: Seq<u16>| ConfigView { ignore_ports: p, ..self }, self)
        } else if key == "discovery_replies"@ {
            put(
                replies_of(value),
                |r: DiscoveryReplies| ConfigView { discovery_replies: r, ..self },
                self,
            )
        } else {
            (self, Outcome::Unknown)
        }
    }

    /// The settings on how this host's own traffic and its protocol counters are judged.
    pub open spec fn set_counters(
        self,
        key: Seq<char>,
        value: Seq<char>,
        double: Option<u64>,
    ) -> (ConfigView, Outcome) {
        if key == "self_window_secs"@ {
            put(
                text::unsigned(value, u64::MAX as nat),
                |n: nat| ConfigView { self_window_secs: n as u64, ..self },
                self,
            )
        } else if key == "self_min_active_minutes"@ {
            put(
                text::unsigned(value, usize::MAX as nat),
                |n: nat| ConfigView { self_min_active_minutes: n as usize, ..self },
                self,
            )
        } else if key == "self_unicast_min_events"@ {
            put(
                text::unsigned(value, u64::MAX as nat),
                |n: nat| ConfigView { self_unicast_min_events: n as u64, ..self },
                self,
            )
        } else if key == "watch_proto"@ {
            (ConfigView { watch_proto: switched_on(value), ..self }, Outcome::Taken)
        } else if key == "noports_min_rate"@ {
            put(
                magnitude_of(double, Rate { bits: 0 }),
                |r: Rate| ConfigView { noports_min_rate: r, ..self },
                self,
            )
        } else if key == "rcvbuf_min_rate"@ {
            put(
                magnitude_of(double, Rate { bits: 0 }),
                |r: Rate| ConfigView { rcvbuf_min_rate: r, ..self },
                self,
            )
        } else if key == "proto_sustain_secs"@ {
            put(
                text::unsigned(value, u64::MAX as nat),
                |n: nat| ConfigView { proto_sustain_secs: n as u64, ..self },
                self,
            )
        } else {
            (self, Outcome::Unknown)
        }
    }

    /// The settings on what is reported, and how.
    pub open spec fn set_output(self, key: Seq<char>, value: Seq<char>) -> (ConfigView, Outcome) {
        if key == "watch_ipv6"@ {
            (ConfigView { watch_ipv6: switched_on(value), ..self }, Outcome::Taken)
        } else if text::begins(key, "name "@) {
            let subject = named_subject(key);
            if subject.len() == 0 || value.len() == 0 {
                (self, Outcome::Refused)
            } else {
                (ConfigView { names: self.names.insert(subject, value), ..self }, Outcome::Taken)
            }
        } else if key == "cooldown_secs"@ {
            put(
                text::unsigned(value, u64::MAX as nat),
                |n: nat| ConfigView { cooldown_secs: n as u64, ..self },
                self,
            )
        } else if key == "notify"@ {
            (ConfigView { notify: switched_on(value), ..self }, Outcome::Taken)
        } else if key == "tui_command"@ {
            (ConfigView { tui_command: value, ..self }, Outcome::Taken)
        } else {
            (self, Outcome::Unknown)
        }
    }

    /// What one setting makes of this configuration. `double` is the pattern of
    /// the double that the value writes, if it writes one.
    pub open spec fn set(
        self,
        key: Seq<char>,
        value: Seq<char>,
        double: Option<u64>,
    ) -> (ConfigView, Outcome) {
        if !(self.set_traffic(key, value, double).1 is Unknown) {
            self.set_traffic(key, value, double)
        } else if !(self.set_drops(key, value).1 is Unknown) {
            self.set_drops(key, value)
        } else if !(self.set_counters(key, value, double).1 is Unknown) {
            self.set_counters(key, value, double)
        } else {
            self.set_output(key, value)
        }
    }
}

fn taken(ok: bool) -> (out: Outcome)
    ensures
        out == if ok {
            Outcome::Taken
        } else {
            Outcome::Refused
        },
{
    if ok {
        Outcome::Taken
    } else {
        Outcome::Refused
    }
}

impl Config {
    fn set_traffic(&mut self, key: &Vec<char>, value: &Vec<char>, double: Option<u64>) -> (out: Outcome)
        requires
            old(self).wf(),
        ensures
            final(self).wf(),
            (final(self)@, out) == old(self)@.set_traffic(key@, value@, double),
    {
        if spells(key, "interval_secs") {
            taken(set_u64(&mut self.interval_secs, value))
        } else if spells(key, "rx_floor_bps") {
            taken(set_f64_at_least(&mut self.rx_floor_bps, double, Rate::zero()))
        } else if spells(key, "asym_ratio") {
            taken(set_ratio(&mut self.asym_ratio, double))
        } else if spells(key, "asym_sustain_secs") {
            taken(set_u64(&mut self.asym_sustain_secs, value))
        } else if spells(key, "socket_corroboration") {
            self.socket_corroboration = is_on(value);
            Outcome::Taken
        } else if spells(key, "socket_account_ratio") {
            taken(set_ratio(&mut self.socket_account_ratio, double))
        } else if spells(key, "ignore_interfaces") {
            self.ignore_interfaces = to_texts(&read_list(value));
            Outcome::Taken
        } else {
            Outcome::Unknown
        }
    }

    fn set_drops(&mut self, key: &Vec<char>, value: &Vec<char>) -> (out: Outcome)
        requires
            old(self).wf(),
        ensures
            final(self).wf(),
            (final(self)@, out) == old(self)@.set_drops(key@, value@),
    {
        if spells(key, "block_pattern") {
            self.block_pattern = to_text(value);
            Outcome::Taken
        } else if spells(key, "block_min_events") {
            taken(set_usize(&mut self.block_min_events, value))
        } else if spells(key, "block_window_secs") {
            taken(set_u64(&mut self.block_window_secs, value))
        } else if spells(key, "block_min_span_secs") {
            taken(set_u64(&mut self.block_min_span_secs, value))
        } else if spells(key, "ignore_ports") {
            match read_ports(&read_list(value)) {
                Some(ports) => {
                    self.ignore_ports = ports;
                    Outcome::Taken
                },
                None => Outcome::Refused,
            }
        } else if spells(key, "discovery_replies") {
            if spells(value, "quiet") {
                self.discovery_replies = DiscoveryReplies::Quiet;
                Outcome::Taken
            } else if spells(value, "alert") {
                self.discovery_replies = DiscoveryReplies::Alert;
                Outcome::Taken
            } else if spells(value, "ignore") {
                self.discovery_replies = DiscoveryReplies::Ignore;
                Outcome::Taken
            } else {
                Outcome::Refused
            }
        } else {
            Outcome::Unknown
        }
    }

    fn set_counters(&mut self, key: &Vec<char>, value: &Vec<char>, double: Option<u64>) -> (out: Outcome)
        requires
            old(self).wf(),
        ensures
            final(self).wf(),
            (final(self)@, out) == old(self)@.set_counters(key@, value@, double),
    {
        if spells(key, "self_window_secs") {
            taken(set_u64(&mut self.self_window_secs, value))
        } else if spells(key, "self_min_active_minutes") {
            taken(set_usize(&mut self.self_min_active_minutes, value))
        } else if spells(key, "self_unicast_min_events") {
            taken(set_u64(&mut self.self_unicast_min_events, value))
        } else if spells(key, "watch_proto") {
            self.watch_proto = is_on(value);
            Outcome::Taken
        } else if spells(key, "noports_min_rate") {
            taken(set_f64_at_least(&mut self.noports_min_rate, double, Rate::zero()))
        } else if spells(key, "rcvbuf_min_rate") {
            taken(set_f64_at_least(&mut self.rcvbuf_min_rate, double, Rate::zero()))
        } else if spells(key, "proto_sustain_secs") {
            taken(set_u64(&mut self.proto_sustain_secs, value))
        } else {
            Outcome::Unknown
        }
    }

    /// Take up `name <mac|ip> = <label>`. A MAC survives a DHCP reshuffle; an
    /// address is there for devices that never appear in the neighbour table.
    fn set_name(&mut self, key: &Vec<char>, value: &Vec<char>) -> (out: Outcome)
        requires
            old(self).wf(),
            text::begins(key@, "name "@),
        ensures
            final(self).wf(),
            ({
                let subject = named_subject(key@);
                if subject.len() == 0 || value@.len() == 0 {
                    out is Refused && final(self)@ == old(self)@
                } else {
                    out is Taken && final(self)@ == (ConfigView {
                        names: old(self)@.names.insert(subject, value@),
                        ..old(self)@
                    })
                }
            }),
    {
        let rest: Vec<char> = match after_prefix(key, "name ") {
            Some(rest) => rest,
            None => Vec::new(),
        };
        let subject = to_text(&trimmed(&rest)).as_str().to_lowercase();
        if to_chars(subject.as_str()).len() == 0 || value.len() == 0 {
            return Outcome::Refused;
        }
        let label = to_text(value);
        let ghost before = self.names@;
        self.names.put(subject, label);
        assert(spelled_names(self.names@) =~= spelled_names(before).insert(subject@, label@));
        Outcome::Taken
    }

    fn set_output(&mut self, key: &Vec<char>, value: &Vec<char>) -> (out: Outcome)
        requires
            old(self).wf(),
        ensures
            final(self).wf(),
            (final(self)@, out) == old(self)@.set_output(key@, value@),
    {
        if spells(key, "watch_ipv6") {
            self.watch_ipv6 = is_on(value);
            Outcome::Taken
        } else if begins_with(key, "name ") {
            self.set_name(key, value)
        } else if spells(key, "cooldown_secs") {
            taken(set_u64(&mut self.cooldown_secs, value))
        } else if spells(key, "notify") {
            self.notify = is_on(value);
            Outcome::Taken
        } else if spells(key, "tui_command") {
            self.tui_command = to_text(value);
            Outcome::Taken
        } else {
            Outcome::Unknown
        }
    }

    /// Take up one setting.
    pub fn set(&mut self, key: &Vec<char>, value: &Vec<char>, double: Option<u64>) -> (out: Outcome)
        requires
            old(self).wf(),
        ensures
            final(self).wf(),
            (final(self)@, out) == old(self)@.set(key@, value@, double),
    {
        let out = self.set_traffic(key, value, double);
        if out != Outcome::Unknown {
            return out;
        }
        let out = self.set_drops(key, value);
        if out != Outcome::Unknown {
            return out;
        }
        let out = self.set_counters(key, value, double);
        if out != Outcome::Unknown {
            return out;
        }
        self.set_output(key, value)
    }
}

// -- Loading ------------------------------------------------------------------

/// A line without its comment and the space around it.
pub open spec fn bare(raw: Seq<char>) -> Seq<char> {
    text::trim(raw.take(text::next_index(raw, '#', 0)))
}

/// The key and the value of a line, if it sets something.
pub open spec fn setting_of(raw: Seq<char>) -> Option<(Seq<char>, Seq<char>)> {
    match text::split_once(bare(raw), '=') {
        Some((key, value)) => Some((text::trim(key), text::trim(value))),
        None => None,
    }
}

/// The value that a line sets; empty where it sets none.
pub open spec fn value_on(raw: Seq<char>) -> Seq<char> {
    match setting_of(raw) {
        Some((_, value)) => value,
        None => Seq::empty(),
    }
}

/// Where a note speaks of.
pub open spec fn place(path: Seq<char>, lineno: nat) -> Seq<char> {
    path + ":"@ + text::dec(lineno)
}

/// A configuration read so far, with the notes on what was wrong in it.
pub struct Reading {
    pub config: ConfigView,
    pub notes: Seq<Seq<char>>,
}

impl Reading {
    /// What one more line makes of the reading.
    pub open spec fn take_line(
        self,
        path: Seq<char>,
        lineno: nat,
        raw: Seq<char>,
        double: Option<u64>,
    ) -> Reading {
        let at = place(path, lineno);
        if bare(raw).len() == 0 {
            self
        } else {
            match setting_of(raw) {
                None => Reading {
                    notes: self.notes.push(at + ": expected `key = value`"@),
                    ..self
                },
                Some((key, value)) => {
                    let (config, outcome) = self.config.set(key, value, double);
                    match outcome {
                        Outcome::Taken => Reading { config, notes: self.notes },
                        Outcome::Refused => Reading {
                            config,
                            notes: self.notes.push(
                                at + ": `"@ + key + "` has an unparseable or out-of-range value `"@
                                    + value + "`, keeping the previous value"@,
                            ),
                        },
                        Outcome::Unknown => Reading {
                            config,
                            notes: self.notes.push(at + ": unknown key `"@ + key + "`"@),
                        },
                    }
                },
            }
        }
    }

    /// What the first `n` lines say. `doubles` holds, line by line, the pattern
    /// of the double that the line's value writes, if it writes one.
    pub open spec fn of_lines(
        path: Seq<char>,
        lines: Seq<Seq<char>>,
        doubles: Seq<Option<u64>>,
        n: int,
    ) -> Reading
        decreases n,
    {
        if n <= 0 {
            Reading { config: ConfigView::standard(), notes: Seq::empty() }
        } else {
            Reading::of_lines(path, lines, doubles, n - 1).take_line(
                path,
                n as nat,
                lines[n - 1],
                double_at(doubles, n - 1),
            )
        }
    }
}

pub open spec fn double_at(doubles: Seq<Option<u64>>, i: int) -> Option<u64> {
    if 0 <= i < doubles.len() {
        doubles[i]
    } else {
        None
    }
}

impl ConfigView {
    /// A configuration fit to run with. A zero interval would spin the loop, and
    /// a cooldown past the largest timestamp would read as always over.
    pub open spec fn settled(self) -> ConfigView {
        ConfigView {
            interval_secs: if self.interval_secs == 0 {
                1
            } else {
                self.interval_secs
            },
            cooldown_secs: if self.cooldown_secs > i64::MAX {
                i64::MAX as u64
            } else {
                self.cooldown_secs
            },
            ..self
        }
    }
}

/// What a configuration file says; the defaults where there is none.
pub open spec fn reading_of(
    path: Seq<char>,
    content: Option<&str>,
    doubles: Seq<Option<u64>>,
) -> Reading {
    match content {
        None => Reading { config: ConfigView::standard(), notes: Seq::empty() },
        Some(t) => {
            let lines = text::lines(t@);
            let all = Reading::of_lines(path, lines, doubles, lines.len() as int);
            Reading { config: all.config.settled(), notes: all.notes }
        },
    }
}

fn read_bare(raw: &Vec<char>) -> (out: Vec<char>)
    ensures
        out@ == bare(raw@),
{
    let end: usize = find_char(raw, '#', 0);
    let kept = copy_range(raw, 0, end);
    assert(kept@ =~= raw@.take(end as int));
    trimmed(&kept)
}

fn read_setting(line: &Vec<char>) -> (out: Option<(Vec<char>, Vec<char>)>)
    ensures
        match out {
            Some(p) => text::split_once(line@, '=') is Some && p.0@ == text::trim(
                text::split_once(line@, '=')->Some_0.0,
            ) && p.1@ == text::trim(text::split_once(line@, '=')->Some_0.1),
            None => text::split_once(line@, '=') is None,
        },
{
    match cut_once(line, '=') {
        Some((key, value)) => Some((trimmed(&key), trimmed(&value))),
        None => None,
    }
}

/// The value that each line sets, empty where a line sets none. A caller that
/// reads doubles reads them from these.
pub fn line_values(content: &str) -> (out: Vec<String>)
    ensures
        text::texts(out@) == text::lines(content@).map_values(|l: Seq<char>| value_on(l)),
{
    let lines = split_lines(&to_chars(content));
    let ghost model = text::lines(content@);
    let mut out: Vec<String> = Vec::new();
    let mut i: usize = 0;
    while i < lines.len()
        invariant
            i <= lines.len(),
            model == text::spelled(lines@),
            out.len() == i,
            forall|k: int| 0 <= k < i ==> (#[trigger] out@[k])@ == value_on(model[k]),
        decreases lines.len() - i,
    {
        assert(model[i as int] == lines@[i as int]@);
        let value: Vec<char> = match read_setting(&read_bare(&lines[i])) {
            Some((_, value)) => value,
            None => Vec::new(),
        };
        assert(value@ =~= value_on(model[i as int]));
        out.push(to_text(&value));
        i = i + 1;
    }
    assert(text::texts(out@) =~= model.map_values(|l: Seq<char>| value_on(l)));
    out
}

fn note_place(path: &str, lineno: usize) -> (out: String)
    ensures
        out@ == place(path@, lineno as nat),
{
    let mut out: String = path.to_owned();
    out.append(":");
    push_dec(&mut out, lineno as u64);
    out
}

impl Config {
    fn take_line(
        &mut self,
        notes: &mut Vec<String>,
        path: &str,
        lineno: usize,
        raw: &Vec<char>,
        double: Option<u64>,
    )
        requires
            old(self).wf(),
        ensures
            final(self).wf(),
            (Reading { config: final(self)@, notes: text::texts(final(notes)@) }) == (Reading {
                config: old(self)@,
                notes: text::texts(old(notes)@),
            }).take_line(path@, lineno as nat, raw@, double),
    {
        let line = read_bare(raw);
        if line.len() == 0 {
            return ;
        }
        let ghost before = text::texts(notes@);
        let mut note = note_place(path, lineno);
        match read_setting(&line) {
            None => {
                note.append(": expected `key = value`");
                notes.push(note);
                assert(text::texts(notes@) =~= before.push(note@));
            },
            Some((key, value)) => {
                match self.set(&key, &value, double) {
                    Outcome::Taken => {},
                    Outcome::Refused => {
                        note.append(": `");
                        note.append(to_text(&key).as_str());
                        note.append("` has an unparseable or out-of-range value `");
                        note.append(to_text(&value).as_str());
                        note.append("`, keeping the previous value");
                        notes.push(note);
                        assert(text::texts(notes@) =~= before.push(note@));
                    },
                    Outcome::Unknown => {
                        note.append(": unknown key `");
                        note.append(to_text(&key).as_str());
                        note.append("`");
                        notes.push(note);
                        assert(text::texts(notes@) =~= before.push(note@));
                    },
                }
            },
        }
    }

    /// Load a configuration, with a note for every line that could not be taken.
    ///
    /// `content` is the file's text, or None where it cannot be read, and
    /// `doubles` holds line by line the pattern of the double that the line's
    /// value writes, if it writes one.
    pub fn load(path: &str, content: Option<&str>, doubles: &Vec<Option<u64>>) -> (out: (
        Config,
        Vec<String>,
    ))
        ensures
            out.0.wf(),
            out.0@ == reading_of(path@, content, doubles@).config,
            text::texts(out.1@) == reading_of(path@, content, doubles@).notes,
    {
        let mut config = Config::default();
        let mut notes: Vec<String> = Vec::new();
        assert(text::texts(notes@) =~= Seq::<Seq<char>>::empty());
        match content {
            None => {},
            Some(t) => {
                let lines = split_lines(&to_chars(t));
                let ghost model = text::lines(t@);
                let mut i: usize = 0;
                while i < lines.len()
                    invariant
                        i <= lines.len(),
                        model == text::spelled(lines@),
                        config.wf(),
                        (Reading { config: config@, notes: text::texts(notes@) })
                            == Reading::of_lines(path@, model, doubles@, i as int),
                    decreases lines.len() - i,
                {
                    assert(model[i as int] == lines@[i as int]@);
                    let double: Option<u64> = if i < doubles.len() {
                        doubles[i]
                    } else {
                        None
                    };
                    config.take_line(&mut notes, path, i + 1, &lines[i], double);
                    i = i + 1;
                }
                if config.interval_secs == 0 {
                    config.interval_secs = 1;
                }
                if config.cooldown_secs > 0x7fff_ffff_ffff_ffff {
                    config.cooldown_secs = 0x7fff_ffff_ffff_ffff;
                }
            },
        }
        (config, notes)
    }
}

// -- Describing ---------------------------------------------------------------

/// The doubles of a configuration, written the way its description shows them.
pub struct Shown<'a> {
    /// The inbound floor in Mbps, with one decimal place.
    pub rx_floor_mbps: &'a str,
    /// The asymmetry ratio in whole percent.
    pub asym_percent: &'a str,
    /// The accounted fraction in whole percent.
    pub account_percent: &'a str,
    /// The rates per second without decimal places.
    pub noports: &'a str,
    pub rcvbuf: &'a str,
}

pub open spec fn bool_text(b: bool) -> Seq<char> {
    if b {
        "true"@
    } else {
        "false"@
    }
}

pub open spec fn port_texts(ports: Seq<u16>) -> Seq<Seq<char>> {
    ports.map_values(|p: u16| text::dec(p as nat))
}

impl ConfigView {
    pub open spec fn summary(self, shown: Shown) -> Seq<char> {
        let ignored = if self.ignore_ports.len() == 0 {
            "none"@
        } else {
            text::join(port_texts(self.ignore_ports), ","@)
        };
        let proto = if self.watch_proto {
            "noports_min_rate="@ + shown.noports@ + "/s rcvbuf_min_rate="@ + shown.rcvbuf@
                + "/s proto_sustain="@ + text::dec(self.proto_sustain_secs as nat) + "s"@
        } else {
            "proto=off"@
        };
        "interval="@ + text::dec(self.interval_secs as nat) + "s rx_floor="@ + shown.rx_floor_mbps@
            + "Mbps asym_ratio="@ + shown.asym_percent@ + "% sustain="@ + text::dec(
            self.asym_sustain_secs as nat,
        ) + "s socket_corroboration="@ + bool_text(self.socket_corroboration) + " ("@
            + shown.account_percent@ + "% accounted) block_min_events="@ + text::dec(
            self.block_min_events as nat,
        ) + " block_min_span="@ + text::dec(self.block_min_span_secs as nat) + "s ignore_ports="@
            + ignored + " self_window="@ + text::dec(self.self_window_secs as nat)
            + "s self_min_active_minutes="@ + text::dec(self.self_min_active_minutes as nat) + " "@
            + proto + " named_devices="@ + text::dec(self.names.dom().len()) + " cooldown="@
            + text::dec(self.cooldown_secs as nat) + "s notify="@ + bool_text(self.notify)
    }
}

fn bool_word(b: bool) -> (out: &'static str)
    ensures
        out@ == bool_text(b),
{
    if b {
        "true"
    } else {
        "false"
    }
}

fn ports_text(ports: &Vec<u16>) -> (out: String)
    ensures
        out@ == text::join(port_texts(ports@), ","@),
{
    let mut parts: Vec<String> = Vec::new();
    let mut i: usize = 0;
    while i < ports.len()
        invariant
            i <= ports.len(),
            parts.len() == i,
            forall|k: int| 0 <= k < i ==> (#[trigger] parts@[k])@ == text::dec(ports@[k] as nat),
        decreases ports.len() - i,
    {
        parts.push(dec_text(ports[i] as u64));
        i = i + 1;
    }
    assert(text::texts(parts@) =~= port_texts(ports@));
    join_texts(&parts, ",")
}

impl Config {
    /// One-line description of the active thresholds, for the startup log entry.
    pub fn summary(&self, shown: Shown) -> (out: String)
        requires
            self.wf(),
        ensures
            out@ == self@.summary(shown),
    {
        let ignored = if self.ignore_ports.len() == 0 {
            "none".to_owned()
        } else {
            ports_text(&self.ignore_ports)
        };
        let proto = if self.watch_proto {
            let mut p: String = "noports_min_rate=".to_owned();
            p.append(shown.noports);
            p.append("/s rcvbuf_min_rate=");
            p.append(shown.rcvbuf);
            p.append("/s proto_sustain=");
            push_dec(&mut p, self.proto_sustain_secs);
            p.append("s");
            p
        } else {
            "proto=off".to_owned()
        };
        proof {
            table::lemma_size(self.names.entries@);
            assert(self@.names.dom() =~= self.names@.dom());
        }
        let mut out: String = "interval=".to_owned();
        push_dec(&mut out, self.interval_secs);
        out.append("s rx_floor=");
        out.append(shown.rx_floor_mbps);
        out.append("Mbps asym_ratio=");
        out.append(shown.asym_percent);
        out.append("% sustain=");
        push_dec(&mut out, self.asym_sustain_secs);
        out.append("s socket_corroboration=");
        out.append(bool_word(self.socket_corroboration));
        out.append(" (");
        out.append(shown.account_percent);
        out.append("% accounted) block_min_events=");
        push_dec(&mut out, self.block_min_events as u64);
        out.append(" block_min_span=");
        push_dec(&mut out, self.block_min_span_secs);
        out.append("s ignore_ports=");
        out.append(ignored.as_str());
        out.append(" self_window=");
        push_dec(&mut out, self.self_window_secs);
        out.append("s self_min_active_minutes=");
        push_dec(&mut out, self.self_min_active_minutes as u64);
        out.append(" ");
        out.append(proto.as_str());
        out.append(" named_devices=");
        push_dec(&mut out, self.names.entries.len() as u64);
        out.append(" cooldown=");
        push_dec(&mut out, self.cooldown_secs);
        out.append("s notify=");
        out.append(bool_word(self.notify));
        out
    }
}

// -- Laws ---------------------------------------------------------------------

/// A value that is refused leaves the configuration as it was, and so does a key
/// that nobody knows.
pub proof fn a_refused_setting_changes_nothing(
    config: ConfigView,
    key: Seq<char>,
    value: Seq<char>,
    double: Option<u64>,
)
    requires
        !(config.set(key, value, double).1 is Taken),
    ensures
        config.set(key, value, double).0 == config,
{
}

/// Whether a line sets something: it is not blank or a comment, it writes a key
/// and a value, somebody knows the key, and the value is taken.
pub open spec fn sets(raw: Seq<char>, double: Option<u64>) -> bool {
    &&& bare(raw).len() > 0
    &&& setting_of(raw) matches Some((key, value)) && ConfigView::standard().set(
        key,
        value,
        double,
    ).1 is Taken
}

/// Those of the first `n` lines that set something.
pub open spec fn settings_upto(
    lines: Seq<Seq<char>>,
    doubles: Seq<Option<u64>>,
    n: int,
) -> Seq<(Seq<char>, Option<u64>)>
    decreases n,
{
    if n <= 0 {
        Seq::empty()
    } else if sets(lines[n - 1], double_at(doubles, n - 1)) {
        settings_upto(lines, doubles, n - 1).push((lines[n - 1], double_at(doubles, n - 1)))
    } else {
        settings_upto(lines, doubles, n - 1)
    }
}

/// The defaults with the first `n` of these settings taken up.
pub open spec fn settings_taken(settings: Seq<(Seq<char>, Option<u64>)>, n: int) -> ConfigView
    decreases n,
{
    if n <= 0 {
        ConfigView::standard()
    } else {
        let (raw, double) = settings[n - 1];
        let (key, value) = setting_of(raw).unwrap();
        settings_taken(settings, n - 1).set(key, value, double).0
    }
}

/// Whether a setting is taken does not depend on what was set before.
proof fn lemma_outcome(a: ConfigView, b: ConfigView, key: Seq<char>, value: Seq<char>, double: Option<u64>)
    ensures
        a.set(key, value, double).1 == b.set(key, value, double).1,
{
    assert(a.set_traffic(key, value, double).1 == b.set_traffic(key, value, double).1);
    assert(a.set_drops(key, value).1 == b.set_drops(key, value).1);
    assert(a.set_counters(key, value, double).1 == b.set_counters(key, value, double).1);
    assert(a.set_output(key, value).1 == b.set_output(key, value).1);
}

proof fn lemma_taken_alike(
    a: Seq<(Seq<char>, Option<u64>)>,
    b: Seq<(Seq<char>, Option<u64>)>,
    n: int,
)
    requires
        0 <= n <= a.len(),
        n <= b.len(),
        forall|i: int| 0 <= i < n ==> a[i] == b[i],
    ensures
        settings_taken(a, n) == settings_taken(b, n),
    decreases n,
{
    if n > 0 {
        lemma_taken_alike(a, b, n - 1);
        assert(a[n - 1] == b[n - 1]);
    }
}

proof fn lemma_settings(
    path: Seq<char>,
    lines: Seq<Seq<char>>,
    doubles: Seq<Option<u64>>,
    n: int,
)
    requires
        0 <= n <= lines.len(),
    ensures
        Reading::of_lines(path, lines, doubles, n).config == settings_taken(
            settings_upto(lines, doubles, n),
            settings_upto(lines, doubles, n).len() as int,
        ),
    decreases n,
{
    if n > 0 {
        lemma_settings(path, lines, doubles, n - 1);
        let raw = lines[n - 1];
        let double = double_at(doubles, n - 1);
        let before = Reading::of_lines(path, lines, doubles, n - 1);
        let so_far = settings_upto(lines, doubles, n - 1);
        let all = settings_upto(lines, doubles, n);
        if bare(raw).len() > 0 && setting_of(raw) is Some {
            let (key, value) = setting_of(raw).unwrap();
            lemma_outcome(before.config, ConfigView::standard(), key, value, double);
            if sets(raw, double) {
                assert(all.last() == (raw, double));
                lemma_taken_alike(all, so_far, so_far.len() as int);
            } else {
                a_refused_setting_changes_nothing(before.config, key, value, double);
            }
        }
    }
}

/// Lines that set nothing make no difference, wherever they stand: blank ones,
/// comments, ones that write no key and value, unknown keys and values that are
/// refused. Two files with the same settings in the same order load alike in
/// every field.
pub proof fn lines_that_set_nothing_make_no_difference(
    path: Seq<char>,
    a: &str,
    a_doubles: Seq<Option<u64>>,
    other: Seq<char>,
    b: &str,
    b_doubles: Seq<Option<u64>>,
)
    requires
        settings_upto(text::lines(a@), a_doubles, text::lines(a@).len() as int) == settings_upto(
            text::lines(b@),
            b_doubles,
            text::lines(b@).len() as int,
        ),
    ensures
        reading_of(path, Some(a), a_doubles).config == reading_of(
            other,
            Some(b),
            b_doubles,
        ).config,
{
    lemma_settings(path, text::lines(a@), a_doubles, text::lines(a@).len() as int);
    lemma_settings(other, text::lines(b@), b_doubles, text::lines(b@).len() as int);
}

proof fn lemma_settings_of_fewer(
    lines: Seq<Seq<char>>,
    doubles: Seq<Option<u64>>,
    more: Seq<Seq<char>>,
    more_doubles: Seq<Option<u64>>,
    k: int,
    n: int,
)
    requires
        0 <= k <= lines.len(),
        0 <= n <= lines.len(),
        more.len() == lines.len() + 1,
        forall|i: int| 0 <= i < k ==> more[i] == #[trigger] lines[i],
        forall|i: int| k <= i < lines.len() ==> more[i + 1] == #[trigger] lines[i],
        forall|i: int|
            0 <= i < k ==> #[trigger] double_at(more_doubles, i) == double_at(doubles, i),
        forall|i: int|
            k <= i < lines.len() ==> double_at(more_doubles, i + 1) == #[trigger] double_at(
                doubles,
                i,
            ),
        !sets(more[k], double_at(more_doubles, k)),
    ensures
        settings_upto(more, more_doubles, if n < k { n } else { n + 1 }) == settings_upto(
            lines,
            doubles,
            n,
        ),
    decreases n,
{
    if n > 0 {
        lemma_settings_of_fewer(lines, doubles, more, more_doubles, k, n - 1);
        if n == k {
            assert(more[n - 1] == lines[n - 1]);
            assert(double_at(more_doubles, n - 1) == double_at(doubles, n - 1));
            assert(settings_upto(more, more_doubles, n) == settings_upto(lines, doubles, n));
        } else if n < k {
            assert(more[n - 1] == lines[n - 1]);
            assert(double_at(more_doubles, n - 1) == double_at(doubles, n - 1));
        } else {
            assert(more[n] == lines[n - 1]);
            assert(double_at(more_doubles, n) == double_at(doubles, n - 1));
        }
    } else if k == 0 {
        assert(settings_upto(more, more_doubles, 0) =~= Seq::empty());
    }
}

/// A line that sets nothing can be put in anywhere: every field of what is
/// loaded stays as it was.
pub proof fn a_line_that_sets_nothing_can_be_put_in_anywhere(
    path: Seq<char>,
    content: &str,
    doubles: Seq<Option<u64>>,
    more: &str,
    k: int,
    raw: Seq<char>,
    double: Option<u64>,
)
    requires
        0 <= k <= text::lines(content@).len(),
        doubles.len() == text::lines(content@).len(),
        text::lines(more@) == text::lines(content@).insert(k, raw),
        !sets(raw, double),
    ensures
        reading_of(path, Some(more), doubles.insert(k, double)).config == reading_of(
            path,
            Some(content),
            doubles,
        ).config,
{
    let lines = text::lines(content@);
    let more_lines = text::lines(more@);
    let more_doubles = doubles.insert(k, double);
    lemma_settings_of_fewer(lines, doubles, more_lines, more_doubles, k, lines.len() as int);
    lines_that_set_nothing_make_no_difference(path, more, more_doubles, path, content, doubles);
}

/// Without a file, and with one that sets nothing, the defaults stand.
pub proof fn without_settings_the_defaults_stand(
    path: Seq<char>,
    content: &str,
    doubles: Seq<Option<u64>>,
)
    ensures
        reading_of(path, None, doubles).config == ConfigView::standard(),
        settings_upto(text::lines(content@), doubles, text::lines(content@).len() as int).len() == 0
            ==> reading_of(path, Some(content), doubles).config == ConfigView::standard(),
{
    lemma_settings(path, text::lines(content@), doubles, text::lines(content@).len() as int);
}

proof fn lemma_traffic_stays_sane(config: ConfigView, key: Seq<char>, value: Seq<char>, double: Option<u64>)
    requires
        config.sane(),
    ensures
        config.set_traffic(key, value, double).0.sane(),
{
}

proof fn lemma_drops_stay_sane(config: ConfigView, key: Seq<char>, value: Seq<char>)
    requires
        config.sane(),
    ensures
        config.set_drops(key, value).0.sane(),
{
}

proof fn lemma_counters_stay_sane(config: ConfigView, key: Seq<char>, value: Seq<char>, double: Option<u64>)
    requires
        config.sane(),
    ensures
        config.set_counters(key, value, double).0.sane(),
{
}

proof fn lemma_output_stays_sane(config: ConfigView, key: Seq<char>, value: Seq<char>)
    requires
        config.sane(),
    ensures
        config.set_output(key, value).0.sane(),
{
}

/// No setting, taken or refused, makes a threshold negative, infinite or no
/// number at all, nor a fraction larger than one.
pub proof fn settings_keep_thresholds_sane(
    config: ConfigView,
    key: Seq<char>,
    value: Seq<char>,
    double: Option<u64>,
)
    requires
        config.sane(),
    ensures
        config.set(key, value, double).0.sane(),
{
    lemma_traffic_stays_sane(config, key, value, double);
    lemma_drops_stay_sane(config, key, value);
    lemma_counters_stay_sane(config, key, value, double);
    lemma_output_stays_sane(config, key, value);
}

proof fn lemma_lines_stay_sane(
    path: Seq<char>,
    lines: Seq<Seq<char>>,
    doubles: Seq<Option<u64>>,
    n: int,
)
    ensures
        Reading::of_lines(path, lines, doubles, n).config.sane(),
    decreases n,
{
    if n > 0 {
        lemma_lines_stay_sane(path, lines, doubles, n - 1);
        let before = Reading::of_lines(path, lines, doubles, n - 1).config;
        match setting_of(lines[n - 1]) {
            Some((key, value)) => {
                settings_keep_thresholds_sane(before, key, value, double_at(doubles, n - 1));
            },
            None => {},
        }
    }
}

/// Whatever a file holds, what is loaded can be run with: the loop never spins,
/// the cooldown fits a timestamp, and every threshold is a number that can be
/// compared with.
pub proof fn every_file_loads_fit_to_run(
    path: Seq<char>,
    content: Option<&str>,
    doubles: Seq<Option<u64>>,
)
    ensures
        ({
            let config = reading_of(path, content, doubles).config;
            &&& config.interval_secs >= 1
            &&& config.cooldown_secs <= i64::MAX
            &&& config.sane()
        }),
{
    match content {
        Some(t) => {
            lemma_lines_stay_sane(
                path,
                text::lines(t@),
                doubles,
                text::lines(t@).len() as int,
            );
        },
        None => {},
    }
}

/// One typo in a port list refuses the whole list.
pub proof fn one_bad_port_refuses_the_list(
    config: ConfigView,
    value: Seq<char>,
    double: Option<u64>,
    i: int,
)
    requires
        0 <= i < list_of(value).len(),
        text::unsigned(list_of(value)[i], u16::MAX as nat) is None,
    ensures
        config.set("ignore_ports"@, value, double) == (config, Outcome::Refused),
{
    reveal_strlit("ignore_ports");
    reveal_strlit("interval_secs");
    reveal_strlit("rx_floor_bps");
    reveal_strlit("asym_ratio");
    reveal_strlit("asym_sustain_secs");
    reveal_strlit("socket_corroboration");
    reveal_strlit("socket_account_ratio");
    reveal_strlit("ignore_interfaces");
    reveal_strlit("block_pattern");
    reveal_strlit("block_min_events");
    reveal_strlit("block_window_secs");
    reveal_strlit("block_min_span_secs");
    let key = "ignore_ports"@;
    assert(key[7] == 'p');
    assert("interval_secs"@.len() != key.len());
    assert("rx_floor_bps"@[0] != key[0]);
    assert("ignore_interfaces"@.len() != key.len());
    let list = list_of(value);
    assert(list.take(i + 1).drop_last() =~= list.take(i));
    assert(ports_of(list.take(i + 1)) is None);
    lemma_one_bad_port_spoils_all(list, i + 1);
}

/// The lengths of the keys, and the letters that tell keys of one length apart.
proof fn lemma_keys_are_told_apart()
    ensures
        "interval_secs"@.len() == 13 && "interval_secs"@[0] == 'i',
        "rx_floor_bps"@.len() == 12 && "rx_floor_bps"@[0] == 'r',
        "asym_ratio"@.len() == 10 && "asym_ratio"@[0] == 'a',
        "asym_sustain_secs"@.len() == 17 && "asym_sustain_secs"@[0] == 'a',
        "socket_corroboration"@.len() == 20 && "socket_corroboration"@[0] == 's' && "socket_corroboration"@[7] == 'c',
        "socket_account_ratio"@.len() == 20 && "socket_account_ratio"@[0] == 's' && "socket_account_ratio"@[7] == 'a',
        "ignore_interfaces"@.len() == 17 && "ignore_interfaces"@[0] == 'i',
        "block_pattern"@.len() == 13 && "block_pattern"@[0] == 'b',
        "block_min_events"@.len() == 16 && "block_min_events"@[0] == 'b',
        "block_window_secs"@.len() == 17 && "block_window_secs"@[0] == 'b',
        "block_min_span_secs"@.len() == 19 && "block_min_span_secs"@[0] == 'b',
        "ignore_ports"@.len() == 12 && "ignore_ports"@[0] == 'i',
        "discovery_replies"@.len() == 17 && "discovery_replies"@[0] == 'd',
        "self_window_secs"@.len() == 16 && "self_window_secs"@[0] == 's',
        "self_min_active_minutes"@.len() == 23 && "self_min_active_minutes"@[0] == 's' && "self_min_active_minutes"@[5] == 'm',
        "self_unicast_min_events"@.len() == 23 && "self_unicast_min_events"@[0] == 's' && "self_unicast_min_events"@[5] == 'u',
        "watch_proto"@.len() == 11 && "watch_proto"@[0] == 'w',
        "noports_min_rate"@.len() == 16 && "noports_min_rate"@[0] == 'n' && "noports_min_rate"@[1] == 'o',
        "rcvbuf_min_rate"@.len() == 15 && "rcvbuf_min_rate"@[0] == 'r',
        "proto_sustain_secs"@.len() == 18 && "proto_sustain_secs"@[0] == 'p',
        "watch_ipv6"@.len() == 10 && "watch_ipv6"@[0] == 'w',
        "cooldown_secs"@.len() == 13 && "cooldown_secs"@[0] == 'c',
        "notify"@.len() == 6 && "notify"@[0] == 'n' && "notify"@[1] == 'o',
        "tui_command"@.len() == 11 && "tui_command"@[0] == 't',
        "name "@.len() == 5 && "name "@[0] == 'n' && "name "@[1] == 'a',
{
    reveal_strlit("interval_secs");
    reveal_strlit("rx_floor_bps");
    reveal_strlit("asym_ratio");
    reveal_strlit("asym_sustain_secs");
    reveal_strlit("socket_corroboration");
    reveal_strlit("socket_account_ratio");
    reveal_strlit("ignore_interfaces");
    reveal_strlit("block_pattern");
    reveal_strlit("block_min_events");
    reveal_strlit("block_window_secs");
    reveal_strlit("block_min_span_secs");
    reveal_strlit("ignore_ports");
    reveal_strlit("discovery_replies");
    reveal_strlit("self_window_secs");
    reveal_strlit("self_min_active_minutes");
    reveal_strlit("self_unicast_min_events");
    reveal_strlit("watch_proto");
    reveal_strlit("noports_min_rate");
    reveal_strlit("rcvbuf_min_rate");
    reveal_strlit("proto_sustain_secs");
    reveal_strlit("watch_ipv6");
    reveal_strlit("cooldown_secs");
    reveal_strlit("notify");
    reveal_strlit("tui_command");
    reveal_strlit("name ");
}

proof fn lemma_not_a_name(key: Seq<char>)
    requires
        key.len() > 1,
        key[0] != 'n' || key[1] != 'a',
    ensures
        !text::begins(key, "name "@),
{
    lemma_keys_are_told_apart();
    if text::begins(key, "name "@) {
        assert(key.subrange(0, 5)[0] == key[0]);
        assert(key.subrange(0, 5)[1] == key[1]);
    }
}

/// A line that sets a switch puts it on where its value is `1`, `true`, `yes` or
/// `on`, and off where it is anything else. Nothing else is set by it.
pub proof fn four_words_switch_on_and_all_others_off(
    config: ConfigView,
    value: Seq<char>,
    double: Option<u64>,
)
    ensures
        ({
            let on = value == "1"@ || value == "true"@ || value == "yes"@ || value == "on"@;
            &&& config.set("notify"@, value, double) == (
                ConfigView { notify: on, ..config },
                Outcome::Taken,
            )
            &&& config.set("watch_ipv6"@, value, double) == (
                ConfigView { watch_ipv6: on, ..config },
                Outcome::Taken,
            )
            &&& config.set("watch_proto"@, value, double) == (
                ConfigView { watch_proto: on, ..config },
                Outcome::Taken,
            )
            &&& config.set("socket_corroboration"@, value, double) == (
                ConfigView { socket_corroboration: on, ..config },
                Outcome::Taken,
            )
            &&& (on <==> value == seq!['1'] || value == seq!['t', 'r', 'u', 'e'] || value == seq![
                'y',
                'e',
                's',
            ] || value == seq!['o', 'n'])
        }),
{
    lemma_keys_are_told_apart();
    lemma_not_a_name("notify"@);
    lemma_not_a_name("watch_ipv6"@);
    reveal_strlit("1");
    reveal_strlit("true");
    reveal_strlit("yes");
    reveal_strlit("on");
    assert("1"@ =~= seq!['1']);
    assert("true"@ =~= seq!['t', 'r', 'u', 'e']);
    assert("yes"@ =~= seq!['y', 'e', 's']);
    assert("on"@ =~= seq!['o', 'n']);
}

/// A count of seconds or events is set by its own key, and what is not a number
/// changes nothing.
pub proof fn a_count_of_seconds_is_set_under_its_key(config: ConfigView, n: u64, value: Seq<char>, double: Option<u64>)
    ensures
        config.set("interval_secs"@, text::dec(n as nat), double) == (
            (ConfigView { interval_secs: n, ..config }),
            Outcome::Taken,
        ),
        text::unsigned(value, u64::MAX as nat) is None ==> config.set("interval_secs"@, value, double) == (
            config,
            Outcome::Refused,
        ),
        config.set("asym_sustain_secs"@, text::dec(n as nat), double) == (
            (ConfigView { asym_sustain_secs: n, ..config }),
            Outcome::Taken,
        ),
        text::unsigned(value, u64::MAX as nat) is None ==> config.set("asym_sustain_secs"@, value, double) == (
            config,
            Outcome::Refused,
        ),
        config.set("block_window_secs"@, text::dec(n as nat), double) == (
            (ConfigView { block_window_secs: n, ..config }),
            Outcome::Taken,
        ),
        text::unsigned(value, u64::MAX as nat) is None ==> config.set("block_window_secs"@, value, double) == (
            config,
            Outcome::Refused,
        ),
        config.set("block_min_span_secs"@, text::dec(n as nat), double) == (
            (ConfigView { block_min_span_secs: n, ..config }),
            Outcome::Taken,
        ),
        text::unsigned(value, u64::MAX as nat) is None ==> config.set("block_min_span_secs"@, value, double) == (
            config,
            Outcome::Refused,
        ),
{
    lemma_keys_are_told_apart();
    text::a_number_reads_back(n as nat);
}

/// The thresholds on this host's own traffic, likewise.
pub proof fn a_counting_threshold_is_set_under_its_key(config: ConfigView, n: u64, value: Seq<char>, double: Option<u64>)
    ensures
        config.set("self_window_secs"@, text::dec(n as nat), double) == (
            (ConfigView { self_window_secs: n, ..config }),
            Outcome::Taken,
        ),
        text::unsigned(value, u64::MAX as nat) is None ==> config.set("self_window_secs"@, value, double) == (
            config,
            Outcome::Refused,
        ),
        config.set("self_unicast_min_events"@, text::dec(n as nat), double) == (
            (ConfigView { self_unicast_min_events: n, ..config }),
            Outcome::Taken,
        ),
        text::unsigned(value, u64::MAX as nat) is None ==> config.set("self_unicast_min_events"@, value, double) == (
            config,
            Outcome::Refused,
        ),
        config.set("proto_sustain_secs"@, text::dec(n as nat), double) == (
            (ConfigView { proto_sustain_secs: n, ..config }),
            Outcome::Taken,
        ),
        text::unsigned(value, u64::MAX as nat) is None ==> config.set("proto_sustain_secs"@, value, double) == (
            config,
            Outcome::Refused,
        ),
        config.set("cooldown_secs"@, text::dec(n as nat), double) == (
            (ConfigView { cooldown_secs: n, ..config }),
            Outcome::Taken,
        ),
        text::unsigned(value, u64::MAX as nat) is None ==> config.set("cooldown_secs"@, value, double) == (
            config,
            Outcome::Refused,
        ),
{
    lemma_keys_are_told_apart();
    text::a_number_reads_back(n as nat);
    lemma_not_a_name("cooldown_secs"@);
}

/// The counts of events and of minutes, likewise.
pub proof fn a_size_is_set_under_its_key(config: ConfigView, n: usize, value: Seq<char>, double: Option<u64>)
    ensures
        config.set("block_min_events"@, text::dec(n as nat), double) == (
            (ConfigView { block_min_events: n, ..config }),
            Outcome::Taken,
        ),
        text::unsigned(value, usize::MAX as nat) is None ==> config.set("block_min_events"@, value, double) == (
            config,
            Outcome::Refused,
        ),
        config.set("self_min_active_minutes"@, text::dec(n as nat), double) == (
            (ConfigView { self_min_active_minutes: n, ..config }),
            Outcome::Taken,
        ),
        text::unsigned(value, usize::MAX as nat) is None ==> config.set("self_min_active_minutes"@, value, double) == (
            config,
            Outcome::Refused,
        ),
{
    lemma_keys_are_told_apart();
    text::a_number_reads_back(n as nat);
}

/// A share is taken from nought to one, both ends among them, and a rate where it
/// is finite and not below nought. Anything else is refused.
pub proof fn a_share_or_a_rate_is_set_under_its_key(
    config: ConfigView,
    value: Seq<char>,
    double: Option<u64>,
)
    ensures
        ({
            let share = double matches Some(bits) && (bits <= 0x3ff0_0000_0000_0000 || bits
                == 0x8000_0000_0000_0000);
            let rate = double matches Some(bits) && (bits < 0x7ff0_0000_0000_0000 || bits
                == 0x8000_0000_0000_0000);
            let r = Rate { bits: double.unwrap() };
            &&& config.set("asym_ratio"@, value, double) == (if share {
                (ConfigView { asym_ratio: r, ..config }, Outcome::Taken)
            } else {
                (config, Outcome::Refused)
            })
            &&& config.set("socket_account_ratio"@, value, double) == (if share {
                (ConfigView { socket_account_ratio: r, ..config }, Outcome::Taken)
            } else {
                (config, Outcome::Refused)
            })
            &&& config.set("rx_floor_bps"@, value, double) == (if rate {
                (ConfigView { rx_floor_bps: r, ..config }, Outcome::Taken)
            } else {
                (config, Outcome::Refused)
            })
            &&& config.set("noports_min_rate"@, value, double) == (if rate {
                (ConfigView { noports_min_rate: r, ..config }, Outcome::Taken)
            } else {
                (config, Outcome::Refused)
            })
            &&& config.set("rcvbuf_min_rate"@, value, double) == (if rate {
                (ConfigView { rcvbuf_min_rate: r, ..config }, Outcome::Taken)
            } else {
                (config, Outcome::Refused)
            })
        }),
{
    lemma_keys_are_told_apart();
}

/// A text is set as it stands, under its own key.
pub proof fn a_text_is_set_as_it_stands(config: ConfigView, value: Seq<char>, double: Option<u64>)
    ensures
        config.set("block_pattern"@, value, double) == (
            (ConfigView { block_pattern: value, ..config }),
            Outcome::Taken,
        ),
        config.set("tui_command"@, value, double) == (
            (ConfigView { tui_command: value, ..config }),
            Outcome::Taken,
        ),
{
    lemma_keys_are_told_apart();
    lemma_not_a_name("tui_command"@);
}

/// Discovery replies are set to one of three words, and any other is refused.
pub proof fn discovery_replies_are_one_of_three_words(
    config: ConfigView,
    value: Seq<char>,
    double: Option<u64>,
)
    ensures
        config.set("discovery_replies"@, "quiet"@, double) == (
            (ConfigView { discovery_replies: DiscoveryReplies::Quiet, ..config }),
            Outcome::Taken,
        ),
        config.set("discovery_replies"@, "alert"@, double) == (
            (ConfigView { discovery_replies: DiscoveryReplies::Alert, ..config }),
            Outcome::Taken,
        ),
        config.set("discovery_replies"@, "ignore"@, double) == (
            (ConfigView { discovery_replies: DiscoveryReplies::Ignore, ..config }),
            Outcome::Taken,
        ),
        value != "quiet"@ && value != "alert"@ && value != "ignore"@ ==> config.set(
            "discovery_replies"@,
            value,
            double,
        ) == (config, Outcome::Refused),
{
    lemma_keys_are_told_apart();
    reveal_strlit("quiet");
    reveal_strlit("alert");
    reveal_strlit("ignore");
    assert("quiet"@[0] == 'q' && "alert"@[0] == 'a' && "ignore"@[0] == 'i');
}

proof fn lemma_entries_pushed(pieces: Seq<Seq<char>>, last: Seq<char>, i: int)
    requires
        0 <= i <= pieces.len(),
    ensures
        text::trim(last).len() == 0 ==> entries_from(pieces.push(last), i) == entries_from(
            pieces,
            i,
        ),
        text::trim(last).len() > 0 ==> entries_from(pieces.push(last), i) == entries_from(
            pieces,
            i,
        ).push(text::trim(last)),
    decreases pieces.len() - i,
{
    let all = pieces.push(last);
    if i < pieces.len() {
        lemma_entries_pushed(pieces, last, i + 1);
        assert(all[i] == pieces[i]);
        if text::trim(last).len() > 0 {
            assert(entries_from(all, i) =~= entries_from(pieces, i).push(text::trim(last)));
        }
    } else {
        assert(all[i] == last);
        assert(entries_from(all, i + 1) =~= Seq::<Seq<char>>::empty());
        assert(entries_from(pieces, i) =~= Seq::<Seq<char>>::empty());
        if text::trim(last).len() > 0 {
            assert(entries_from(all, i) =~= entries_from(pieces, i).push(text::trim(last)));
        }
    }
}

/// A list is read at its commas, each entry without the white space round it. An
/// entry of nothing but white space is none.
pub proof fn a_list_is_read_entry_by_entry(pieces: Seq<Seq<char>>, last: Seq<char>)
    requires
        forall|k: int| 0 <= k < pieces.len() ==> !(#[trigger] pieces[k]).contains(','),
        !last.contains(','),
    ensures
        pieces.len() > 0 ==> list_of(text::join(pieces.push(last), ","@)) == list_of(
            text::join(pieces, ","@),
        ) + list_of(last),
        list_of(last) == (if text::trim(last).len() == 0 {
            Seq::empty()
        } else {
            seq![text::trim(last)]
        }),
{
    reveal_strlit(",");
    assert(","@ =~= seq![',']);
    let all = pieces.push(last);
    assert forall|k: int| 0 <= k < all.len() implies !(#[trigger] all[k]).contains(',') by {
        if k < pieces.len() {
            assert(all[k] == pieces[k]);
        }
    }
    text::splitting_undoes_joining(all, ',');
    if pieces.len() > 0 {
        text::splitting_undoes_joining(pieces, ',');
    }
    lemma_entries_pushed(pieces, last, 0);
    let own = seq![last];
    assert forall|k: int| 0 <= k < own.len() implies !(#[trigger] own[k]).contains(',') by {}
    text::splitting_undoes_joining(own, ',');
    assert(text::join(own, seq![',']) =~= last);
    lemma_entries_pushed(Seq::empty(), last, 0);
    assert(Seq::<Seq<char>>::empty().push(last) =~= own);
    assert(list_of(last) =~= (if text::trim(last).len() == 0 {
        Seq::empty()
    } else {
        seq![text::trim(last)]
    }));
    if pieces.len() > 0 {
        assert(list_of(text::join(all, ","@)) =~= list_of(text::join(pieces, ","@)) + list_of(
            last,
        ));
    }
}

/// The list of interfaces is set as it is read.
pub proof fn the_ignored_interfaces_are_the_list(
    config: ConfigView,
    value: Seq<char>,
    double: Option<u64>,
)
    ensures
        config.set("ignore_interfaces"@, value, double) == (
            (ConfigView { ignore_interfaces: list_of(value), ..config }),
            Outcome::Taken,
        ),
{
    lemma_keys_are_told_apart();
}

proof fn lemma_ports_read_back(ports: Seq<u16>)
    ensures
        ports_of(port_texts(ports)) == Some(ports),
    decreases ports.len(),
{
    let texts = port_texts(ports);
    if ports.len() > 0 {
        lemma_ports_read_back(ports.drop_last());
        assert(texts.drop_last() =~= port_texts(ports.drop_last()));
        text::a_number_reads_back(ports.last() as nat);
        assert(ports =~= ports.drop_last().push(ports.last()));
    } else {
        assert(texts.len() == 0);
        assert(ports =~= Seq::<u16>::empty());
    }
}

/// The ports to ignore are the numbers that their list writes, in its order.
pub proof fn the_ignored_ports_are_the_numbers_of_the_list(
    config: ConfigView,
    ports: Seq<u16>,
    value: Seq<char>,
    double: Option<u64>,
)
    requires
        list_of(value).len() == ports.len(),
        forall|i: int|
            0 <= i < ports.len() ==> #[trigger] list_of(value)[i] == text::dec(ports[i] as nat),
    ensures
        config.set("ignore_ports"@, value, double) == (
            (ConfigView { ignore_ports: ports, ..config }),
            Outcome::Taken,
        ),
{
    lemma_keys_are_told_apart();
    lemma_ports_read_back(ports);
    assert(list_of(value) =~= port_texts(ports));
}

/// A device is named under the lower-case words behind `name`, without the white
/// space round them. Nothing is named without a subject or without a name.
pub proof fn a_device_is_named_under_its_subject(
    config: ConfigView,
    subject: Seq<char>,
    value: Seq<char>,
    double: Option<u64>,
)
    ensures
        ({
            let key = seq!['n', 'a', 'm', 'e', ' '] + subject;
            let under = text::lowercased(text::trim(subject));
            config.set(key, value, double) == (if under.len() == 0 || value.len() == 0 {
                (config, Outcome::Refused)
            } else {
                (
                    ConfigView { names: config.names.insert(under, value), ..config },
                    Outcome::Taken,
                )
            })
        }),
{
    lemma_keys_are_told_apart();
    reveal_strlit("name ");
    let key = seq!['n', 'a', 'm', 'e', ' '] + subject;
    assert("name "@ =~= seq!['n', 'a', 'm', 'e', ' ']);
    text::a_prefix_is_taken_off_where_it_stands(key, "name "@, subject);
    assert(key.skip(5) =~= subject);
    assert(key[0] == 'n' && key[1] == 'a');
}

/// A key is known where it is one of those with a meaning or begins with `name `,
/// and any other is called unknown and changes nothing.
pub proof fn no_other_key_is_known(
    config: ConfigView,
    key: Seq<char>,
    value: Seq<char>,
    double: Option<u64>,
)
    ensures
        config.set(key, value, double).1 is Unknown <==> key != "interval_secs"@
            && key != "rx_floor_bps"@ && key != "asym_ratio"@ && key != "asym_sustain_secs"@
            && key != "socket_corroboration"@ && key != "socket_account_ratio"@
            && key != "ignore_interfaces"@ && key != "block_pattern"@
            && key != "block_min_events"@ && key != "block_window_secs"@
            && key != "block_min_span_secs"@ && key != "ignore_ports"@
            && key != "discovery_replies"@ && key != "self_window_secs"@
            && key != "self_min_active_minutes"@ && key != "self_unicast_min_events"@
            && key != "watch_proto"@ && key != "noports_min_rate"@ && key != "rcvbuf_min_rate"@
            && key != "proto_sustain_secs"@ && key != "watch_ipv6"@ && key != "cooldown_secs"@
            && key != "notify"@ && key != "tui_command"@ && !text::begins(key, "name "@),
        config.set(key, value, double).1 is Unknown ==> config.set(key, value, double).0 == config,
{
    lemma_keys_are_told_apart();
}

/// What follows a `#` is no part of a line, and neither is white space round what
/// stands before it.
pub proof fn a_comment_is_no_part_of_a_line(line: Seq<char>, comment: Seq<char>)
    requires
        !line.contains('#'),
    ensures
        bare(line + seq!['#'] + comment) == text::trim(line),
        bare(line) == text::trim(line),
{
    let all = line + seq!['#'] + comment;
    assert(all[line.len() as int] == '#');
    assert forall|k: int| 0 <= k < line.len() implies all[k] != '#' by {
        assert(all[k] == line[k]);
        assert(line.contains(line[k]));
    }
    text::lemma_next_index_is(all, '#', 0, line.len() as int);
    assert(all.take(line.len() as int) =~= line);
    assert forall|k: int| 0 <= k < line.len() implies line[k] != '#' by {
        assert(line.contains(line[k]));
    }
    text::lemma_next_index_is(line, '#', 0, line.len() as int);
    assert(line.take(line.len() as int) =~= line);
}

/// A line sets the key before its first equals sign to the value behind it, each
/// without the white space round it. Without an equals sign it sets nothing.
pub proof fn a_line_is_a_key_an_equals_sign_and_a_value(raw: Seq<char>, key: Seq<char>, value: Seq<char>)
    requires
        !key.contains('='),
    ensures
        bare(raw) == key + seq!['='] + value ==> setting_of(raw) == Some(
            (text::trim(key), text::trim(value)),
        ),
        bare(raw) == key ==> setting_of(raw) is None,
{
    text::a_split_gives_both_sides(key, '=', value);
    text::a_cut_is_at_the_first_separator(key, '=');
    if text::split_once(key, '=') is Some {
        let (h, t) = text::split_once(key, '=').unwrap();
        assert(key[h.len() as int] == '=');
    }
}

/// A line that is taken leaves no note. One that is not leaves exactly one, which
/// says where it stands and what is wrong with it, and keeps the settings. A
/// blank line leaves everything as it is.
pub proof fn a_note_says_what_is_wrong_with_its_line(
    before: Reading,
    path: Seq<char>,
    lineno: nat,
    raw: Seq<char>,
    double: Option<u64>,
)
    ensures
        ({
            let after = before.take_line(path, lineno, raw, double);
            let at = path + seq![':'] + text::dec(lineno);
            &&& bare(raw).len() == 0 ==> after == before
            &&& bare(raw).len() > 0 && setting_of(raw) is None ==> after.config == before.config
                && after.notes == before.notes.push(at + ": expected `key = value`"@)
            &&& bare(raw).len() > 0 && setting_of(raw) is Some ==> {
                let (key, value) = setting_of(raw).unwrap();
                let (config, outcome) = before.config.set(key, value, double);
                &&& outcome is Taken ==> after.config == config && after.notes == before.notes
                &&& outcome is Refused ==> after.config == before.config && after.notes
                    == before.notes.push(
                    at + ": `"@ + key + "` has an unparseable or out-of-range value `"@ + value
                        + "`, keeping the previous value"@,
                )
                &&& outcome is Unknown ==> after.config == before.config && after.notes
                    == before.notes.push(at + ": unknown key `"@ + key + "`"@)
            }
        }),
{
    reveal_strlit(":");
    assert(":"@ =~= seq![':']);
    if setting_of(raw) is Some {
        let (key, value) = setting_of(raw).unwrap();
        if !(before.config.set(key, value, double).1 is Taken) {
            a_refused_setting_changes_nothing(before.config, key, value, double);
        }
    }
}

/// Settings are fit to run with: the interval is a second at least, the cooldown
/// can be counted with a sign, and all else stands as it was set.
pub proof fn settled_settings_are_within_bounds(config: ConfigView)
    ensures
        config.interval_secs == 0 ==> config.settled().interval_secs == 1,
        config.interval_secs > 0 ==> config.settled().interval_secs == config.interval_secs,
        config.cooldown_secs <= 0x7fff_ffff_ffff_ffff ==> config.settled().cooldown_secs
            == config.cooldown_secs,
        config.cooldown_secs > 0x7fff_ffff_ffff_ffff ==> config.settled().cooldown_secs
            == 0x7fff_ffff_ffff_ffff,
        config.settled() == (ConfigView {
            interval_secs: config.settled().interval_secs,
            cooldown_secs: config.settled().cooldown_secs,
            ..config
        }),
{
}

/// Lines are taken in order from the defaults on, each with its number counted
/// from one and with its own double.
pub proof fn lines_are_taken_in_order(
    path: Seq<char>,
    lines: Seq<Seq<char>>,
    doubles: Seq<Option<u64>>,
    n: int,
)
    requires
        0 <= n < lines.len(),
        lines.len() == doubles.len(),
    ensures
        Reading::of_lines(path, lines, doubles, 0) == (Reading {
            config: ConfigView::standard(),
            notes: Seq::empty(),
        }),
        Reading::of_lines(path, lines, doubles, n + 1) == Reading::of_lines(
            path,
            lines,
            doubles,
            n,
        ).take_line(path, (n + 1) as nat, lines[n], doubles[n]),
{
}

/// What holds where nothing is set.
pub proof fn the_defaults_are_these()
    ensures
        ({
            let d = ConfigView::standard();
            &&& d.interval_secs == 10
            &&& d.asym_sustain_secs == 60
            &&& d.ignore_interfaces == seq!["lo"@, "tailscale0"@]
            &&& d.socket_corroboration && d.watch_proto && d.watch_ipv6 && d.notify
            &&& d.block_pattern == "UFW BLOCK"@
            &&& d.block_min_events == 4
            &&& d.block_window_secs == 15 * 60
            &&& d.block_min_span_secs == 2 * 60
            &&& d.ignore_ports.len() == 0
            &&& d.discovery_replies is Quiet
            &&& d.self_window_secs == 60 * 60
            &&& d.self_min_active_minutes == 30
            &&& d.self_unicast_min_events == 4
            &&& d.proto_sustain_secs == 60
            &&& d.cooldown_secs == 30 * 60
            &&& d.names.dom().len() == 0
            &&& d.tui_command.len() == 0
            &&& d.rx_floor_bps.bits == 0x412e_8480_0000_0000u64
            &&& d.noports_min_rate.bits == 0x4014_0000_0000_0000u64
            &&& d.rcvbuf_min_rate.bits == 0x4024_0000_0000_0000u64
            &&& d.asym_ratio.bits == 0x3f94_7ae1_47ae_147bu64
            &&& d.socket_account_ratio.bits == 0x3fe6_6666_6666_6666u64
            &&& d.sane()
        }),
{
}

/// The summary says each setting under its name: the ports that are ignored, or
/// that none is, and what the counters are held against, or that they are off.
pub proof fn the_summary_says_each_setting_under_its_name(config: ConfigView, shown: Shown)
    ensures
        ({
            let ports = if config.ignore_ports.len() == 0 {
                "none"@
            } else {
                text::join(
                    Seq::new(
                        config.ignore_ports.len(),
                        |i: int| text::dec(config.ignore_ports[i] as nat),
                    ),
                    seq![','],
                )
            };
            let corroboration = if config.socket_corroboration {
                "true"@
            } else {
                "false"@
            };
            let counters = if !config.watch_proto {
                "proto=off"@
            } else {
                "noports_min_rate="@ + shown.noports@ + "/s rcvbuf_min_rate="@ + shown.rcvbuf@
                    + "/s proto_sustain="@ + text::dec(config.proto_sustain_secs as nat) + "s"@
            };
            let notify = if config.notify {
                "true"@
            } else {
                "false"@
            };
            config.summary(shown) == "interval="@ + text::dec(config.interval_secs as nat)
                + "s rx_floor="@ + shown.rx_floor_mbps@ + "Mbps asym_ratio="@ + shown.asym_percent@
                + "% sustain="@ + text::dec(config.asym_sustain_secs as nat)
                + "s socket_corroboration="@ + corroboration + " ("@ + shown.account_percent@
                + "% accounted) block_min_events="@ + text::dec(config.block_min_events as nat)
                + " block_min_span="@ + text::dec(config.block_min_span_secs as nat)
                + "s ignore_ports="@ + ports + " self_window="@ + text::dec(
                config.self_window_secs as nat,
            ) + "s self_min_active_minutes="@ + text::dec(config.self_min_active_minutes as nat)
                + " "@ + counters + " named_devices="@ + text::dec(config.names.dom().len())
                + " cooldown="@ + text::dec(config.cooldown_secs as nat) + "s notify="@ + notify
        }),
{
    reveal_strlit(",");
    assert(","@ =~= seq![',']);
    assert(port_texts(config.ignore_ports) =~= Seq::new(
        config.ignore_ports.len(),
        |i: int| text::dec(config.ignore_ports[i] as nat),
    ));
}

} // verus!
