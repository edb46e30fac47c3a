//! Firewall-drop detection, sourced from the kernel log.
//!
//! One drop is noise. The same source, protocol and destination port being
//! dropped over and over for minutes is somebody transmitting into a host that
//! is not listening, which is precisely the failure that is invisible everywhere
//! else, because a silent drop gives the sender no feedback at all.
//!
//! That premise only holds for unicast traffic from somebody else, so records of
//! packets this host sent itself and of packets addressed to a group are
//! filtered out before they reach a flow.

use vstd::prelude::*;

use crate::addr;
use crate::addr::parse_ip;
use crate::alert;
use crate::alert::{fmt_duration, Alert};
use crate::config::{Config, ConfigView, DiscoveryReplies};
use crate::cooldown;
use crate::cooldown::{is_cooled, Spoken};
use crate::discovery;
use crate::discovery::{classify, EphemeralRange};
use crate::drops::{BlockEvent, EventView};
use crate::local::{is_nearby, LocalNet, LocalView};
use crate::order;
use crate::order::stable_order;
use crate::selfblock;
use crate::selfblock::{SelfBlockTracker, SelfView};
use crate::sockets::{port_in_use, solicited_locally, SocketTables, TablesView};
use crate::text;
use crate::text::{is_listed, join_texts, push_dec, text_eq};

verus! {

// -- Filtered records ---------------------------------------------------------

/// Why records were discarded before reaching the tracker. Counted rather than
/// logged per packet: a chatty segment produces thousands of these an hour.
#[derive(Clone, Copy, Debug, PartialEq, Eq, Structural)]
pub struct SkipCounts {
    pub self_sourced: u64,
    pub group_dest: u64,
    pub ignored_port: u64,
    /// Answers to this host's own discovery, where those are to be ignored.
    pub discovery_reply: u64,
}

impl SkipCounts {
    pub open spec fn sum(self) -> int {
        self.self_sourced + self.group_dest + self.ignored_port + self.discovery_reply
    }

    pub open spec fn described(self) -> Option<Seq<char>> {
        if self.sum() == 0 {
            None
        } else {
            Some(
                text::dec(self.sum() as nat) + " record(s) ignored: "@ + text::dec(
                    self.self_sourced as nat,
                ) + " sent by this host, "@ + text::dec(self.group_dest as nat)
                    + " addressed to a multicast or broadcast group, "@ + text::dec(
                    self.ignored_port as nat,
                ) + " on an ignored port, "@ + text::dec(self.discovery_reply as nat)
                    + " answering this host's own discovery"@,
            )
        }
    }

    pub fn none() -> (out: SkipCounts)
        ensures
            out.sum() == 0,
    {
        SkipCounts { self_sourced: 0, group_dest: 0, ignored_port: 0, discovery_reply: 0 }
    }

    pub fn total(&self) -> (out: u64)
        requires
            self.sum() <= u64::MAX,
        ensures
            out == self.sum(),
    {
        self.self_sourced + self.group_dest + self.ignored_port + self.discovery_reply
    }

    /// What was discarded, in one sentence, so that a quiet result is visibly
    /// "these were filtered", never a silent nothing.
    pub fn summary(&self) -> (out: Option<String>)
        requires
            self.sum() <= u64::MAX,
        ensures
            match out {
                Some(s) => self.described() == Some(s@),
                None => self.described() is None,
            },
    {
        let total: u64 = self.total();
        if total == 0 {
            return None;
        }
        let mut out: String = String::new();
        push_dec(&mut out, total);
        out.append(" record(s) ignored: ");
        push_dec(&mut out, self.self_sourced);
        out.append(" sent by this host, ");
        push_dec(&mut out, self.group_dest);
        out.append(" addressed to a multicast or broadcast group, ");
        push_dec(&mut out, self.ignored_port);
        out.append(" on an ignored port, ");
        push_dec(&mut out, self.discovery_reply);
        out.append(" answering this host's own discovery");
        assert(out@ =~= self.described().unwrap());
        Some(out)
    }
}

// -- Flows --------------------------------------------------------------------

pub struct FlowKey {
    pub src: String,
    pub proto: String,
    pub dport: u16,
}

pub struct FlowKeyView {
    pub src: Seq<char>,
    pub proto: Seq<char>,
    pub dport: u16,
}

impl View for FlowKey {
    type V = FlowKeyView;

    open spec fn view(&self) -> FlowKeyView {
        FlowKeyView { src: self.src@, proto: self.proto@, dport: self.dport }
    }
}

/// Distinct destination addresses a flow may accumulate before corroboration is
/// refused outright. Real multi-homed hosts have a handful of addresses.
pub const MAX_FLOW_DSTS: usize = 8;

pub struct FlowState {
    /// Times of drops inside the current window.
    pub times: Vec<i64>,
    /// Drops observed since this flow was first seen.
    pub total: u64,
    pub first: i64,
    pub last: i64,
    pub iface: String,
    pub sport: u16,
    pub bytes: u64,
    /// Where the latest packet was addressed.
    pub dst: String,
    /// Every distinct address this flow's packets were sent to, in arrival
    /// order. A binding on one address is no evidence about the packets sent to
    /// another, so corroboration has to hold for all of them.
    pub dsts: Vec<String>,
    /// The flow used more destinations than any real host has addresses.
    pub dst_overflow: bool,
    pub alerted_at: Option<i64>,
    /// The discovery protocol every record in this flow has answered on. Once a
    /// record disagrees, the flow stops being discovery for good.
    pub discovery: Option<&'static str>,
    /// Whether an alert for this flow was actually emitted. Distinct from
    /// `alerted_at`, which is also set where a round is held back.
    pub announced: bool,
    /// What the flow was reported as, once it has announced itself.
    pub alerted_as_discovery: Option<&'static str>,
}

pub struct StateView {
    pub times: Seq<i64>,
    pub total: u64,
    pub first: i64,
    pub last: i64,
    pub iface: Seq<char>,
    pub sport: u16,
    pub bytes: u64,
    pub dst: Seq<char>,
    pub dsts: Seq<Seq<char>>,
    pub dst_overflow: bool,
    pub alerted_at: Option<i64>,
    pub discovery: Option<Seq<char>>,
    pub announced: bool,
    pub alerted_as_discovery: Option<Seq<char>>,
}

impl View for FlowState {
    type V = StateView;

    open spec fn view(&self) -> StateView {
        StateView {
            times: self.times@,
            total: self.total,
            first: self.first,
            last: self.last,
            iface: self.iface@,
            sport: self.sport,
            bytes: self.bytes,
            dst: self.dst@,
            dsts: text::texts(self.dsts@),
            dst_overflow: self.dst_overflow,
            alerted_at: self.alerted_at,
            discovery: discovery::name_view(self.discovery),
            announced: self.announced,
            alerted_as_discovery: discovery::name_view(self.alerted_as_discovery),
        }
    }
}

pub struct Flow {
    pub key: FlowKey,
    pub state: FlowState,
}

pub struct FlowView {
    pub key: FlowKeyView,
    pub state: StateView,
}

impl View for Flow {
    type V = FlowView;

    open spec fn view(&self) -> FlowView {
        FlowView { key: self.key@, state: self.state@ }
    }
}

pub open spec fn flows_view(v: Seq<Flow>) -> Seq<FlowView> {
    v.map_values(|f: Flow| f@)
}

impl StateView {
    /// What a flow's bookkeeping keeps to: its last drop is the last one in the
    /// window, if any is, its destinations are few, it is announced only where an alert is on record, and it signs off only as what
    /// it still is.
    pub open spec fn consistent(self) -> bool {
        &&& self.times.len() > 0 ==> self.times.last() == self.last
        &&& 1 <= self.dsts.len() <= MAX_FLOW_DSTS
        &&& self.announced ==> self.alerted_at is Some
        &&& self.alerted_as_discovery is Some ==> self.announced && self.alerted_as_discovery
            == self.discovery
    }
}

/// Every flow stands once, and its bookkeeping is consistent.
pub open spec fn well_formed(flows: Seq<FlowView>) -> bool {
    &&& forall|i: int, j: int|
        0 <= i < j < flows.len() ==> (#[trigger] flows[i]).key != (#[trigger] flows[j]).key
    &&& forall|i: int| 0 <= i < flows.len() ==> (#[trigger] flows[i]).state.consistent()
}

// -- What a tracker says besides alerts ---------------------------------------

/// Something the journal should hear about a flow that already spoke.
pub enum Notice {
    /// A flow reported as discovery turned out to be something else.
    Revoked { src: String, dport: u16, protocol: &'static str },
    /// A reported flow has stopped.
    Ended {
        src: String,
        proto: String,
        dport: u16,
        reported_as: Option<&'static str>,
        lasted: u64,
        total: u64,
    },
}

pub enum NoticeView {
    Revoked { src: Seq<char>, dport: u16, protocol: Seq<char> },
    Ended {
        src: Seq<char>,
        proto: Seq<char>,
        dport: u16,
        reported_as: Option<Seq<char>>,
        lasted: u64,
        total: u64,
    },
}

impl View for Notice {
    type V = NoticeView;

    open spec fn view(&self) -> NoticeView {
        match *self {
            Notice::Revoked { src, dport, protocol } => NoticeView::Revoked {
                src: src@,
                dport,
                protocol: protocol@,
            },
            Notice::Ended { src, proto, dport, reported_as, lasted, total } => NoticeView::Ended {
                src: src@,
                proto: proto@,
                dport,
                reported_as: discovery::name_view(reported_as),
                lasted,
                total,
            },
        }
    }
}

pub open spec fn notices_view(v: Seq<Notice>) -> Seq<NoticeView> {
    v.map_values(|n: Notice| n@)
}

impl NoticeView {
    /// The journal line of a notice, with the label of the device it is about.
    /// A flow signs off the way it was announced.
    pub open spec fn line(self, label: Seq<char>) -> Seq<char> {
        match self {
            NoticeView::Revoked { dport, protocol, .. } => "discovery-revoked — "@ + label
                + " → udp/"@ + text::dec(dport as nat) + " stopped looking like "@ + protocol
                + " replies; re-judging as a blocked flow"@,
            NoticeView::Ended { proto, dport, reported_as, lasted, total, .. } => {
                let head = match reported_as {
                    Some(p) => "discovery-reply-ended — "@ + label + " → "@ + p + " replies"@,
                    None => "blocked-flow-ended — "@ + label + " → "@ + text::lowercased(proto)
                        + "/"@ + text::dec(dport as nat),
                };
                head + " stopped after "@ + alert::duration_text(lasted as nat) + " ("@ + text::dec(
                    total as nat,
                ) + " drops logged)"@
            },
        }
    }

    pub open spec fn source(self) -> Seq<char> {
        match self {
            NoticeView::Revoked { src, .. } => src,
            NoticeView::Ended { src, .. } => src,
        }
    }
}

impl Notice {
    /// The device this is about.
    pub fn source(&self) -> (out: &str)
        ensures
            out@ == self@.source(),
    {
        match self {
            Notice::Revoked { src, .. } => src.as_str(),
            Notice::Ended { src, .. } => src.as_str(),
        }
    }

    pub fn line(&self, label: &str) -> (out: String)
        ensures
            out@ == self@.line(label@),
    {
        match self {
            Notice::Revoked { src: _, dport, protocol } => {
                let mut out: String = "discovery-revoked — ".to_owned();
                out.append(label);
                out.append(" → udp/");
                push_dec(&mut out, *dport as u64);
                out.append(" stopped looking like ");
                out.append(protocol);
                out.append(" replies; re-judging as a blocked flow");
                out
            },
            Notice::Ended { src: _, proto, dport, reported_as, lasted, total } => {
                let mut out: String = match reported_as {
                    Some(p) => {
                        let mut o: String = "discovery-reply-ended — ".to_owned();
                        o.append(label);
                        o.append(" → ");
                        o.append(p);
                        o.append(" replies");
                        o
                    },
                    None => {
                        let mut o: String = "blocked-flow-ended — ".to_owned();
                        o.append(label);
                        o.append(" → ");
                        o.append(proto.as_str().to_lowercase().as_str());
                        o.append("/");
                        push_dec(&mut o, *dport as u64);
                        o
                    },
                };
                out.append(" stopped after ");
                out.append(fmt_duration(*lasted).as_str());
                out.append(" (");
                push_dec(&mut out, *total);
                out.append(" drops logged)");
                out
            },
        }
    }
}

// -- The tracker --------------------------------------------------------------

/// What a flow's alert is about, and what the cooldown that follows it holds
/// back.
///
/// A blocked flow is its own subject. Each discovery round asks from a fresh port
/// and is a new flow, so there the subject that repeats is the device and the
/// protocol. Corroborated and uncorroborated rounds are different findings, and
/// the quiet one must not silence the loud.
pub enum Subject {
    Blocked { key: FlowKey },
    Reply { src: String, protocol: &'static str, corroborated: bool },
}

pub enum SubjectView {
    Blocked { key: FlowKeyView },
    Reply { src: Seq<char>, protocol: Seq<char>, corroborated: bool },
}

impl View for Subject {
    type V = SubjectView;

    open spec fn view(&self) -> SubjectView {
        match *self {
            Subject::Blocked { key } => SubjectView::Blocked { key: key@ },
            Subject::Reply { src, protocol, corroborated } => SubjectView::Reply {
                src: src@,
                protocol: protocol@,
                corroborated,
            },
        }
    }
}

impl cooldown::Subject for Subject {
    fn is(&self, other: &Self) -> (b: bool) {
        match (self, other) {
            (Subject::Blocked { key: a }, Subject::Blocked { key: b }) => text_eq(
                a.src.as_str(),
                b.src.as_str(),
            ) && text_eq(a.proto.as_str(), b.proto.as_str()) && a.dport == b.dport,
            (
                Subject::Reply { src: a, protocol: p, corroborated: c },
                Subject::Reply { src: b, protocol: q, corroborated: d },
            ) => text_eq(a.as_str(), b.as_str()) && text_eq(p, q) && *c == *d,
            _ => false,
        }
    }
}

pub struct FlowTracker {
    pub flows: Vec<Flow>,
    pub local: LocalNet,
    pub range: EphemeralRange,
    pub skipped: SkipCounts,
    /// Records this detector rejects are not thrown away: traffic this host
    /// sends and then drops is a different problem, judged on its own terms.
    pub selfblock: SelfBlockTracker,
    /// When each subject last raised an alert, whatever has become of the flow.
    pub spoken: Spoken<Subject>,
    /// What the journal has not been told yet.
    pub notices: Vec<Notice>,
}

pub struct TrackerView {
    pub flows: Seq<FlowView>,
    pub local: LocalView,
    pub range: EphemeralRange,
    pub skipped: SkipCounts,
    pub selfblock: SelfView,
    pub spoken: Seq<(SubjectView, i64)>,
    pub notices: Seq<NoticeView>,
}

impl View for FlowTracker {
    type V = TrackerView;

    open spec fn view(&self) -> TrackerView {
        TrackerView {
            flows: flows_view(self.flows@),
            local: self.local@,
            range: self.range,
            skipped: self.skipped,
            selfblock: self.selfblock@,
            spoken: self.spoken@,
            notices: notices_view(self.notices@),
        }
    }
}

// -- Intake -------------------------------------------------------------------

/// What becomes of a drop record.
#[derive(Clone, Copy, Debug, PartialEq, Eq, Structural)]
pub enum Intake {
    /// Its port is to be ignored.
    IgnoredPort,
    /// This host sent it; to a single host or to a group.
    SelfSourced { unicast: bool },
    /// It was addressed to a group rather than to this host.
    GroupDest,
    /// It answers this host's own discovery, and those are to be ignored.
    DiscoveryReply,
    /// It joins its flow.
    Recorded,
}

impl TrackerView {
    /// The discovery protocol that a record answers on, if it has that shape.
    pub open spec fn classified(self, event: EventView) -> Option<Seq<char>> {
        discovery::answered(
            event.proto,
            event.sport,
            event.dport,
            self.local.nearby(event.src),
            self.range,
        )
    }

    /// Whether a drop record can possibly indicate misdirected traffic.
    pub open spec fn intake(self, event: EventView, config: ConfigView) -> Intake {
        let src = addr::ip_of(event.src);
        let dst = addr::ip_of(event.dst);
        if config.ignore_ports.contains(event.dport) {
            Intake::IgnoredPort
        } else if src is Some && self.local.is_local(src.unwrap()) {
            // An unparseable destination counts as a group, so garbage takes the
            // quiet path.
            Intake::SelfSourced { unicast: dst is Some && !self.local.is_group(dst.unwrap()) }
        } else if dst is Some && self.local.is_group(dst.unwrap()) {
            Intake::GroupDest
        } else if config.discovery_replies is Ignore && self.classified(event) is Some {
            Intake::DiscoveryReply
        } else {
            Intake::Recorded
        }
    }
}

fn holds_port(ports: &Vec<u16>, port: u16) -> (b: bool)
    ensures
        b == ports@.contains(port),
{
    let mut i: usize = 0;
    while i < ports.len()
        invariant
            i <= ports.len(),
            forall|k: int| 0 <= k < i ==> ports@[k] != port,
        decreases ports.len() - i,
    {
        if ports[i] == port {
            return true;
        }
        i = i + 1;
    }
    false
}

// -- Recording ----------------------------------------------------------------

impl StateView {
    /// A flow of which nothing has been counted yet.
    pub open spec fn opened(event: EventView, classified: Option<Seq<char>>) -> StateView {
        StateView {
            times: Seq::empty(),
            total: 0,
            first: event.ts,
            last: event.ts,
            iface: event.iface,
            sport: event.sport,
            bytes: 0,
            dst: event.dst,
            dsts: seq![event.dst],
            dst_overflow: false,
            alerted_at: None,
            discovery: classified,
            announced: false,
            alerted_as_discovery: None,
        }
    }

    /// A record that does not answer the same protocol as the ones before it
    /// disqualifies the whole flow.
    pub open spec fn disqualified_by(self, classified: Option<Seq<char>>) -> bool {
        self.discovery is Some && self.discovery != classified
    }

    /// Everything said about the flow was said about a different thing; the
    /// blocked flow it now is gets judged from scratch.
    pub open spec fn revoked(self) -> StateView {
        StateView {
            discovery: None,
            alerted_at: None,
            announced: false,
            alerted_as_discovery: None,
            ..self
        }
    }

    /// One more drop.
    pub open spec fn counted(self, event: EventView) -> StateView {
        let new_dst = !self.dsts.contains(event.dst);
        StateView {
            times: self.times.push(event.ts),
            total: (self.total + 1) as u64,
            bytes: (self.bytes + event.len) as u64,
            last: event.ts,
            iface: event.iface,
            sport: event.sport,
            dst: event.dst,
            dsts: if new_dst && self.dsts.len() < MAX_FLOW_DSTS {
                self.dsts.push(event.dst)
            } else {
                self.dsts
            },
            dst_overflow: self.dst_overflow || (new_dst && self.dsts.len() >= MAX_FLOW_DSTS),
            ..self
        }
    }

    pub open spec fn recorded(self, event: EventView, classified: Option<Seq<char>>) -> StateView {
        if self.disqualified_by(classified) {
            self.revoked().counted(event)
        } else {
            self.counted(event)
        }
    }

    /// The counters can take one more drop of this length.
    pub open spec fn has_room(self, len: u64) -> bool {
        self.total < u64::MAX && self.bytes + len <= u64::MAX
    }
}

pub open spec fn key_of(event: EventView) -> FlowKeyView {
    FlowKeyView { src: event.src, proto: event.proto, dport: event.dport }
}

/// Where a flow stands from position `i` on; the length where it does not.
pub open spec fn position(flows: Seq<FlowView>, key: FlowKeyView, i: int) -> int
    decreases flows.len() - i,
{
    if i < 0 || i >= flows.len() {
        flows.len() as int
    } else if flows[i].key == key {
        i
    } else {
        position(flows, key, i + 1)
    }
}

proof fn lemma_position(flows: Seq<FlowView>, key: FlowKeyView, i: int)
    requires
        0 <= i <= flows.len(),
    ensures
        i <= position(flows, key, i) <= flows.len(),
        position(flows, key, i) < flows.len() ==> flows[position(flows, key, i)].key == key,
        position(flows, key, i) == flows.len() ==> forall|k: int|
            i <= k < flows.len() ==> (#[trigger] flows[k]).key != key,
    decreases flows.len() - i,
{
    if i < flows.len() && flows[i].key != key {
        lemma_position(flows, key, i + 1);
    }
}

impl TrackerView {
    /// The flow that a record belongs to, as it is before the record.
    pub open spec fn state_before(self, event: EventView) -> StateView {
        let p = position(self.flows, key_of(event), 0);
        if p < self.flows.len() {
            self.flows[p].state
        } else {
            StateView::opened(event, self.classified(event))
        }
    }

    /// What is said about a flow that a record disqualifies after it was
    /// reported.
    pub open spec fn revocation(self, event: EventView) -> Seq<NoticeView> {
        let state = self.state_before(event);
        if state.disqualified_by(self.classified(event)) && state.announced {
            seq![
                NoticeView::Revoked {
                    src: event.src,
                    dport: event.dport,
                    protocol: state.discovery.unwrap(),
                },
            ]
        } else {
            Seq::empty()
        }
    }

    /// The tracker after folding a record into its flow.
    pub open spec fn joined(self, event: EventView) -> TrackerView {
        let p = position(self.flows, key_of(event), 0);
        let state = self.state_before(event).recorded(event, self.classified(event));
        let flow = FlowView { key: key_of(event), state };
        TrackerView {
            flows: if p < self.flows.len() {
                self.flows.update(p, flow)
            } else {
                self.flows.push(flow)
            },
            notices: self.notices + self.revocation(event),
            ..self
        }
    }

    /// The tracker after a record.
    pub open spec fn recorded(self, event: EventView, config: ConfigView) -> TrackerView {
        let s = self.skipped;
        match self.intake(event, config) {
            Intake::IgnoredPort => TrackerView {
                skipped: SkipCounts { ignored_port: (s.ignored_port + 1) as u64, ..s },
                ..self
            },
            Intake::SelfSourced { unicast } => TrackerView {
                skipped: SkipCounts { self_sourced: (s.self_sourced + 1) as u64, ..s },
                selfblock: self.selfblock.recorded(event, unicast),
                ..self
            },
            Intake::GroupDest => TrackerView {
                skipped: SkipCounts { group_dest: (s.group_dest + 1) as u64, ..s },
                ..self
            },
            Intake::DiscoveryReply => TrackerView {
                skipped: SkipCounts { discovery_reply: (s.discovery_reply + 1) as u64, ..s },
                ..self
            },
            Intake::Recorded => self.joined(event),
        }
    }

    /// The counters that a record moves can take it: those of its flow where it
    /// joins one, else the count of filtered ones, and for a packet this host
    /// sent, those of its destination too.
    /// This host's addresses are to be read again before a record is judged.
    pub open spec fn wants_addresses_for(
        self,
        event: EventView,
        config: ConfigView,
        now: i64,
    ) -> bool {
        !config.ignore_ports.contains(event.dport) && self.local.stale(now as int)
    }

    pub open spec fn has_room(self, event: EventView, config: ConfigView) -> bool {
        match self.intake(event, config) {
            Intake::Recorded => self.state_before(event).has_room(event.len),
            Intake::SelfSourced { .. } => self.skipped.sum() < u64::MAX && selfblock::room_for(
                self.selfblock.flows,
                event,
            ),
            _ => self.skipped.sum() < u64::MAX,
        }
    }
}

fn same_protocol(a: Option<&'static str>, b: Option<&'static str>) -> (eq: bool)
    ensures
        eq == (discovery::name_view(a) == discovery::name_view(b)),
{
    match (a, b) {
        (Some(x), Some(y)) => text_eq(x, y),
        (None, None) => true,
        _ => false,
    }
}

impl FlowState {
    fn open(event: &BlockEvent, classified: Option<&'static str>) -> (out: FlowState)
        ensures
            out@ == StateView::opened(event@, discovery::name_view(classified)),
    {
        let mut dsts: Vec<String> = Vec::new();
        dsts.push(event.dst.clone());
        assert(text::texts(dsts@) =~= seq![event.dst@]);
        let out = FlowState {
            times: Vec::new(),
            total: 0,
            first: event.ts,
            last: event.ts,
            iface: event.iface.clone(),
            sport: event.sport,
            bytes: 0,
            dst: event.dst.clone(),
            dsts,
            dst_overflow: false,
            alerted_at: None,
            discovery: classified,
            announced: false,
            alerted_as_discovery: None,
        };
        assert(out@.times =~= Seq::<i64>::empty());
        out
    }

    fn count(&mut self, event: &BlockEvent)
        requires
            old(self)@.has_room(event.len),
        ensures
            final(self)@ == old(self)@.counted(event@),
    {
        let ghost before = text::texts(self.dsts@);
        assert(before.len() == self.dsts@.len());
        if !is_listed(&self.dsts, event.dst.as_str()) {
            if self.dsts.len() < MAX_FLOW_DSTS {
                self.dsts.push(event.dst.clone());
                assert(text::texts(self.dsts@) =~= before.push(event.dst@));
            } else {
                self.dst_overflow = true;
            }
        }
        self.times.push(event.ts);
        self.total = self.total + 1;
        self.bytes = self.bytes + event.len;
        self.last = event.ts;
        self.iface = event.iface.clone();
        self.sport = event.sport;
        self.dst = event.dst.clone();
    }

    /// Fold a record into the flow. Returns the protocol that the flow was
    /// reported on, where the record revokes that report.
    fn record(&mut self, event: &BlockEvent, classified: Option<&'static str>) -> (out: Option<
        &'static str,
    >)
        requires
            old(self)@.has_room(event.len),
        ensures
            final(self)@ == old(self)@.recorded(event@, discovery::name_view(classified)),
            discovery::name_view(out) == if old(self)@.disqualified_by(
                discovery::name_view(classified),
            ) && old(self)@.announced {
                old(self)@.discovery
            } else {
                None
            },
    {
        let mut said: Option<&'static str> = None;
        if self.discovery.is_some() && !same_protocol(self.discovery, classified) {
            if self.announced {
                said = self.discovery;
            }
            self.discovery = None;
            self.alerted_at = None;
            self.announced = false;
            self.alerted_as_discovery = None;
        }
        self.count(event);
        said
    }
}

proof fn lemma_joined_well_formed(tracker: TrackerView, event: EventView)
    requires
        well_formed(tracker.flows),
    ensures
        well_formed(tracker.joined(event).flows),
{
    let flows = tracker.flows;
    let after = tracker.joined(event).flows;
    lemma_position(flows, key_of(event), 0);
    let p = position(flows, key_of(event), 0);
    if p < flows.len() {
        assert(flows[p].state.consistent());
    }
    assert forall|i: int, j: int| 0 <= i < j < after.len() implies (#[trigger] after[i]).key != (
    #[trigger] after[j]).key by {
        if j < flows.len() {
            assert(flows[i].key != flows[j].key);
        } else {
            assert(flows[i].key != key_of(event));
        }
    }
    assert forall|i: int| 0 <= i < after.len() implies (
    #[trigger] after[i]).state.consistent() by {
        if i < flows.len() && i != p {
            assert(flows[i].state.consistent());
        }
    }
}

impl FlowTracker {
    pub open spec fn wf(self) -> bool {
        &&& well_formed(self@.flows)
        &&& self.local.wf()
        &&& self.selfblock.wf()
        &&& self.skipped.sum() <= u64::MAX
    }

    /// Build a tracker over a fixed view of this host's addresses, with the
    /// kernel's usual ephemeral range.
    pub fn with_local(local: LocalNet) -> (out: FlowTracker)
        requires
            local.wf(),
        ensures
            out.wf(),
            out.local == local,
            out.range == EphemeralRange::usual(),
            out@ == TrackerView::started(local@, EphemeralRange::usual()),
    {
        FlowTracker::new(local, EphemeralRange::read(None))
    }

    /// Build a tracker over this host's addresses and the range its kernel draws
    /// ephemeral ports from.
    pub fn new(local: LocalNet, range: EphemeralRange) -> (out: FlowTracker)
        requires
            local.wf(),
        ensures
            out.wf(),
            out.local == local,
            out.range == range,
            out@ == TrackerView::started(local@, range),
    {
        let out = FlowTracker {
            flows: Vec::new(),
            local,
            range,
            skipped: SkipCounts::none(),
            selfblock: SelfBlockTracker::new(),
            spoken: Spoken::new(),
            notices: Vec::new(),
        };
        assert(out@.flows =~= Seq::<FlowView>::empty());
        assert(out@.notices =~= Seq::<NoticeView>::empty());
        out
    }

    pub fn skipped(&self) -> (out: SkipCounts)
        requires
            self.wf(),
        ensures
            out == self@.skipped,
            out.sum() <= u64::MAX,
    {
        self.skipped
    }

    /// What this host is currently having dropped by its own firewall, whether
    /// or not it has crossed the alerting threshold.
    pub fn selfblock_summary(&self) -> (out: Option<String>)
        ensures
            match out {
                Some(s) => selfblock::summary_of(self@.selfblock.flows) == Some(s@),
                None => selfblock::summary_of(self@.selfblock.flows) is None,
            },
    {
        self.selfblock.summary()
    }

    /// Have this host's addresses to be read again before this record is judged?
    /// Not for one that is ignored by its port, and not more often than their
    /// term.
    pub fn wants_addresses(&self, event: &BlockEvent, cfg: &Config, now: i64) -> (b: bool)
        ensures
            b == self@.wants_addresses_for(event@, cfg@, now),
    {
        !holds_port(&cfg.ignore_ports, event.dport) && self.local.is_stale(now)
    }

    /// Take up a new reading of this host's addresses, if the present one is
    /// stale.
    pub fn refresh_addresses(&mut self, now: i64, output: Option<&str>)
        requires
            old(self).wf(),
        ensures
            final(self).wf(),
            final(self)@ == (TrackerView {
                local: old(self)@.local.refresh(now as int, crate::local::addrs_of(output)),
                ..old(self)@
            }),
    {
        self.local.refresh_if_stale(now, output);
    }

    fn classify_event(&self, event: &BlockEvent) -> (out: Option<&'static str>)
        requires
            self.local.wf(),
        ensures
            discovery::name_view(out) == self@.classified(event@),
    {
        classify(
            event.proto.as_str(),
            event.sport,
            event.dport,
            is_nearby(&self.local, event.src.as_str()),
            &self.range,
        )
    }

    /// Decide whether a drop record can possibly indicate misdirected traffic.
    pub fn should_record(&self, event: &BlockEvent, cfg: &Config) -> (out: Intake)
        requires
            self.local.wf(),
        ensures
            out == self@.intake(event@, cfg@),
    {
        if holds_port(&cfg.ignore_ports, event.dport) {
            return Intake::IgnoredPort;
        }
        let dst = parse_ip(event.dst.as_str());
        let to_group: bool = match dst {
            Some(ip) => self.local.is_group(&ip),
            None => false,
        };
        match parse_ip(event.src.as_str()) {
            Some(src) => {
                if self.local.is_local(&src) {
                    return Intake::SelfSourced { unicast: dst.is_some() && !to_group };
                }
            },
            None => {},
        }
        if to_group {
            return Intake::GroupDest;
        }
        if cfg.discovery_replies == DiscoveryReplies::Ignore && self.classify_event(
            event,
        ).is_some() {
            return Intake::DiscoveryReply;
        }
        Intake::Recorded
    }

    fn find(&self, event: &BlockEvent) -> (out: Option<usize>)
        ensures
            match out {
                Some(p) => p == position(self@.flows, key_of(event@), 0) && p < self.flows@.len(),
                None => position(self@.flows, key_of(event@), 0) == self.flows@.len(),
            },
    {
        let ghost all = self@.flows;
        let mut i: usize = 0;
        while i < self.flows.len()
            invariant
                i <= self.flows.len(),
                all == self@.flows,
                position(all, key_of(event@), 0) == position(all, key_of(event@), i as int),
            decreases self.flows.len() - i,
        {
            assert(all[i as int] == self.flows@[i as int]@);
            let key = &self.flows[i].key;
            if text_eq(key.src.as_str(), event.src.as_str()) && text_eq(
                key.proto.as_str(),
                event.proto.as_str(),
            ) && key.dport == event.dport {
                return Some(i);
            }
            i = i + 1;
        }
        None
    }

    /// Can the counters that this record moves take it? A tracker that has
    /// counted for longer than a machine can count says no.
    pub fn has_room(&self, event: &BlockEvent, cfg: &Config) -> (b: bool)
        requires
            self.wf(),
        ensures
            b == self@.has_room(event@, cfg@),
    {
        match self.should_record(event, cfg) {
            Intake::Recorded => match self.find(event) {
                None => true,
                Some(p) => {
                    assert(self@.flows[p as int] == self.flows@[p as int]@);
                    let state = &self.flows[p].state;
                    state.total < u64::MAX && state.bytes <= u64::MAX - event.len
                },
            },
            Intake::SelfSourced { .. } => self.skipped.total() < u64::MAX
                && self.selfblock.has_room(event),
            _ => self.skipped.total() < u64::MAX,
        }
    }

    /// Fold a drop record into its flow. Returns false if it was filtered out.
    pub fn record(&mut self, event: BlockEvent, cfg: &Config) -> (recorded: bool)
        requires
            old(self).wf(),
            old(self)@.has_room(event@, cfg@),
        ensures
            final(self).wf(),
            recorded == (old(self)@.intake(event@, cfg@) is Recorded),
            final(self)@ == old(self)@.recorded(event@, cfg@),
    {
        match self.should_record(&event, cfg) {
            Intake::IgnoredPort => {
                self.skipped.ignored_port = self.skipped.ignored_port + 1;
                false
            },
            Intake::SelfSourced { unicast } => {
                self.skipped.self_sourced = self.skipped.self_sourced + 1;
                self.selfblock.record(&event, unicast);
                false
            },
            Intake::GroupDest => {
                self.skipped.group_dest = self.skipped.group_dest + 1;
                false
            },
            Intake::DiscoveryReply => {
                self.skipped.discovery_reply = self.skipped.discovery_reply + 1;
                false
            },
            Intake::Recorded => {
                self.join(event);
                true
            },
        }
    }

    fn join(&mut self, event: BlockEvent)
        requires
            old(self).wf(),
            old(self)@.state_before(event@).has_room(event.len),
        ensures
            final(self).wf(),
            final(self)@ == old(self)@.joined(event@),
    {
        let ghost before = self@;
        proof {
            lemma_position(before.flows, key_of(event@), 0);
            lemma_joined_well_formed(before, event@);
        }
        let classified = self.classify_event(&event);
        let said: Option<&'static str> = match self.find(&event) {
            Some(p) => {
                assert(before.flows[p as int] == self.flows@[p as int]@);
                let said = self.flows[p].state.record(&event, classified);
                assert(self@.flows =~= before.joined(event@).flows);
                said
            },
            None => {
                let mut state = FlowState::open(&event, classified);
                let said = state.record(&event, classified);
                let key = FlowKey {
                    src: event.src.clone(),
                    proto: event.proto.clone(),
                    dport: event.dport,
                };
                self.flows.push(Flow { key, state });
                assert(self@.flows =~= before.joined(event@).flows);
                said
            },
        };
        match said {
            Some(protocol) => {
                let notice = Notice::Revoked {
                    src: event.src.clone(),
                    dport: event.dport,
                    protocol,
                };
                self.notices.push(notice);
                assert(self@.notices =~= before.notices.push(notice@));
                assert(self@.notices =~= before.notices + before.revocation(event@));
            },
            None => {
                assert(self@.notices =~= before.notices + before.revocation(event@));
            },
        }
    }
}

impl TrackerView {
    /// A tracker that has seen nothing.
    pub open spec fn started(local: LocalView, range: EphemeralRange) -> TrackerView {
        TrackerView {
            flows: Seq::empty(),
            local,
            range,
            skipped: SkipCounts {
                self_sourced: 0,
                group_dest: 0,
                ignored_port: 0,
                discovery_reply: 0,
            },
            selfblock: SelfView::started(),
            spoken: Seq::empty(),
            notices: Seq::empty(),
        }
    }
}

// -- Facts --------------------------------------------------------------------

/// Everything an alert says about a flow, copied out of the tracker so that the
/// alert can be built, and built again once names have resolved.
pub struct FlowFacts {
    pub src: String,
    pub proto_lower: String,
    pub dport: u16,
    pub sport: u16,
    pub total: u64,
    pub bytes: u64,
    pub iface: String,
    pub duration: String,
    /// The port is occupied by some local socket.
    pub listening: bool,
    /// Where the packets were most recently addressed.
    pub dst: String,
    /// A local socket is bound such that it could have received every packet in
    /// this flow. Stronger than `listening`: a loopback binding occupies a port
    /// without being able to receive a single LAN packet.
    pub corroborated: bool,
    pub nearby: bool,
    /// The discovery protocol this flow is answering. It inverts the meaning of
    /// the whole alert: the source is replying, not transmitting.
    pub discovery: Option<&'static str>,
}

pub struct FactsView {
    pub src: Seq<char>,
    pub proto_lower: Seq<char>,
    pub dport: u16,
    pub sport: u16,
    pub total: u64,
    pub bytes: u64,
    pub iface: Seq<char>,
    pub duration: Seq<char>,
    pub listening: bool,
    pub dst: Seq<char>,
    pub corroborated: bool,
    pub nearby: bool,
    pub discovery: Option<Seq<char>>,
}

impl View for FlowFacts {
    type V = FactsView;

    open spec fn view(&self) -> FactsView {
        FactsView {
            src: self.src@,
            proto_lower: self.proto_lower@,
            dport: self.dport,
            sport: self.sport,
            total: self.total,
            bytes: self.bytes,
            iface: self.iface@,
            duration: self.duration@,
            listening: self.listening,
            dst: self.dst@,
            corroborated: self.corroborated,
            nearby: self.nearby,
            discovery: discovery::name_view(self.discovery),
        }
    }
}

pub open spec fn facts_view(v: Seq<FlowFacts>) -> Seq<FactsView> {
    v.map_values(|f: FlowFacts| f@)
}

/// The time from one moment to a later one, nothing where it is not later.
pub open spec fn elapsed(from: i64, to: i64) -> nat {
    if to >= from {
        (to - from) as nat
    } else {
        0
    }
}

fn elapsed_secs(from: i64, to: i64) -> (out: u64)
    ensures
        out == elapsed(from, to),
{
    if to >= from {
        ((to as i128) - (from as i128)) as u64
    } else {
        0
    }
}

impl FlowView {
    /// A local socket could have received the packets sent to each of the flow's
    /// destinations, and the flow has the shape of a reply. On a multi-homed
    /// host one flow lands on several addresses, and the last packet must not
    /// vouch for the ones before it.
    pub open spec fn corroborated(self, tables: TablesView) -> bool {
        &&& self.state.discovery is Some
        &&& !self.state.dst_overflow
        &&& forall|i: int|
            0 <= i < self.state.dsts.len() ==> tables.solicited(
                self.key.proto,
                self.key.src,
                self.state.sport,
                #[trigger] self.state.dsts[i],
                self.key.dport,
            )
    }

    pub open spec fn facts(self, now: i64, local: LocalView, tables: TablesView) -> FactsView {
        FactsView {
            src: self.key.src,
            proto_lower: text::lowercased(self.key.proto),
            dport: self.key.dport,
            sport: self.state.sport,
            total: self.state.total,
            bytes: self.state.bytes,
            iface: self.state.iface,
            duration: alert::duration_text(elapsed(self.state.first, now)),
            listening: tables.in_use(self.key.proto, self.key.dport),
            dst: self.state.dst,
            corroborated: self.corroborated(tables),
            nearby: local.nearby(self.key.src),
            discovery: self.state.discovery,
        }
    }
}

fn is_corroborated(flow: &Flow, tables: &SocketTables) -> (b: bool)
    ensures
        b == flow@.corroborated(tables@),
{
    if flow.state.discovery.is_none() || flow.state.dst_overflow {
        return false;
    }
    let ghost dsts = flow@.state.dsts;
    let mut i: usize = 0;
    while i < flow.state.dsts.len()
        invariant
            i <= flow.state.dsts.len(),
            dsts == text::texts(flow.state.dsts@),
            dsts == flow@.state.dsts,
            forall|k: int|
                0 <= k < i ==> tables@.solicited(
                    flow@.key.proto,
                    flow@.key.src,
                    flow@.state.sport,
                    #[trigger] dsts[k],
                    flow@.key.dport,
                ),
        decreases flow.state.dsts.len() - i,
    {
        assert(dsts[i as int] == flow.state.dsts@[i as int]@);
        if !solicited_locally(
            flow.key.proto.as_str(),
            flow.key.src.as_str(),
            flow.state.sport,
            flow.state.dsts[i].as_str(),
            flow.key.dport,
            tables,
        ) {
            assert(!tables@.solicited(
                flow@.key.proto,
                flow@.key.src,
                flow@.state.sport,
                flow@.state.dsts[i as int],
                flow@.key.dport,
            ));
            return false;
        }
        i = i + 1;
    }
    true
}

fn gather_facts(flow: &Flow, now: i64, local: &LocalNet, tables: &SocketTables) -> (out: FlowFacts)
    requires
        local.wf(),
    ensures
        out@ == flow@.facts(now, local@, tables@),
{
    FlowFacts {
        src: flow.key.src.clone(),
        proto_lower: flow.key.proto.as_str().to_lowercase(),
        dport: flow.key.dport,
        sport: flow.state.sport,
        total: flow.state.total,
        bytes: flow.state.bytes,
        iface: flow.state.iface.clone(),
        duration: fmt_duration(elapsed_secs(flow.state.first, now)),
        listening: port_in_use(flow.key.proto.as_str(), flow.key.dport, tables),
        dst: flow.state.dst.clone(),
        corroborated: is_corroborated(flow, tables),
        nearby: is_nearby(local, flow.key.src.as_str()),
        discovery: flow.state.discovery,
    }
}

// -- Judging ------------------------------------------------------------------

/// The times without the leading ones that have left the window.
pub open spec fn still_in_window(times: Seq<i64>, now: i64, window: i64) -> Seq<i64>
    decreases times.len(),
{
    if times.len() > 0 && now - times[0] > window {
        still_in_window(times.skip(1), now, window)
    } else {
        times
    }
}

/// What judging a flow comes to.
pub enum Judgement {
    /// It has stopped, and is forgotten.
    Finished,
    /// There is nothing to say about it now.
    Quiet,
    /// It is a discovery round that is due, but its subject has spoken too
    /// recently.
    HeldBack,
    /// It is due.
    Due,
}

impl FlowView {
    pub open spec fn pruned(self, config: ConfigView, now: i64) -> FlowView {
        FlowView {
            state: StateView {
                times: still_in_window(self.state.times, now, config.block_window_secs as i64),
                ..self.state
            },
            ..self
        }
    }

    /// Enough drops in the window, over a long enough span.
    pub open spec fn sustained(self, config: ConfigView) -> bool {
        self.state.times.len() >= config.block_min_events && self.state.last - self.state.times[0]
            >= config.block_min_span_secs as i64
    }

    pub open spec fn subject(self, tables: TablesView) -> SubjectView {
        match self.state.discovery {
            Some(protocol) => SubjectView::Reply {
                src: self.key.src,
                protocol,
                corroborated: self.corroborated(tables),
            },
            None => SubjectView::Blocked { key: self.key },
        }
    }

    /// The flow's subject has spoken less than a cooldown ago. The flow may be a
    /// new one: a discovery round comes from a fresh port every time, and a
    /// blocked flow that pauses for longer than the window is forgotten.
    pub open spec fn repeats(
        self,
        config: ConfigView,
        now: i64,
        tables: TablesView,
        spoken: Seq<(SubjectView, i64)>,
    ) -> bool {
        cooldown::held(spoken, self.subject(tables), now, config.cooldown_secs)
    }

    pub open spec fn judgement(
        self,
        config: ConfigView,
        now: i64,
        tables: TablesView,
        spoken: Seq<(SubjectView, i64)>,
    ) -> Judgement {
        let flow = self.pruned(config, now);
        if flow.state.times.len() == 0 {
            if now - flow.state.last > config.block_window_secs as i64 {
                Judgement::Finished
            } else {
                Judgement::Quiet
            }
        } else if !flow.sustained(config) || !cooldown::cooled(
            flow.state.alerted_at,
            now,
            config.cooldown_secs,
        ) {
            Judgement::Quiet
        } else if flow.repeats(config, now, tables, spoken) {
            if flow.state.discovery is Some {
                Judgement::HeldBack
            } else {
                Judgement::Quiet
            }
        } else {
            Judgement::Due
        }
    }

    /// What a judgement leaves of a flow that is not finished. A flow that is
    /// held back is marked, so that it is not judged again on every tick, but it
    /// is not announced: nothing was said, so nothing may report having stopped.
    pub open spec fn after(self, judgement: Judgement, config: ConfigView, now: i64) -> FlowView {
        let flow = self.pruned(config, now);
        match judgement {
            Judgement::HeldBack => FlowView {
                state: StateView { alerted_at: Some(now), ..flow.state },
                ..flow
            },
            Judgement::Due => FlowView {
                state: StateView {
                    alerted_at: Some(now),
                    announced: true,
                    alerted_as_discovery: flow.state.discovery,
                    ..flow.state
                },
                ..flow
            },
            _ => flow,
        }
    }

    /// What a flow that has stopped has to say: nothing, if it never spoke.
    pub open spec fn farewell(self) -> Seq<NoticeView> {
        if self.state.announced {
            seq![
                NoticeView::Ended {
                    src: self.key.src,
                    proto: self.key.proto,
                    dport: self.key.dport,
                    reported_as: self.state.alerted_as_discovery,
                    lasted: elapsed(self.state.first, self.state.last) as u64,
                    total: self.state.total,
                },
            ]
        } else {
            Seq::empty()
        }
    }
}

/// A sweep over the flows, some way through.
pub struct Sweep {
    pub flows: Seq<FlowView>,
    pub spoken: Seq<(SubjectView, i64)>,
    pub due: Seq<FactsView>,
    pub notices: Seq<NoticeView>,
}

impl Sweep {
    /// The sweep after one more flow.
    pub open spec fn judge(
        self,
        flow: FlowView,
        config: ConfigView,
        now: i64,
        local: LocalView,
        tables: TablesView,
    ) -> Sweep {
        let judgement = flow.judgement(config, now, tables, self.spoken);
        let after = flow.after(judgement, config, now);
        match judgement {
            Judgement::Finished => Sweep { notices: self.notices + flow.farewell(), ..self },
            Judgement::Quiet => Sweep { flows: self.flows.push(after), ..self },
            Judgement::HeldBack => Sweep { flows: self.flows.push(after), ..self },
            Judgement::Due => Sweep {
                flows: self.flows.push(after),
                spoken: cooldown::noted(self.spoken, flow.subject(tables), now, 0),
                due: self.due.push(flow.pruned(config, now).facts(now, local, tables)),
                ..self
            },
        }
    }
}

impl TrackerView {
    /// The sweep over the first `n` flows.
    pub open spec fn swept(
        self,
        config: ConfigView,
        now: i64,
        tables: TablesView,
        n: int,
    ) -> Sweep
        decreases n,
    {
        if n <= 0 {
            Sweep {
                flows: Seq::empty(),
                spoken: self.spoken,
                due: Seq::empty(),
                notices: self.notices,
            }
        } else {
            self.swept(config, now, tables, n - 1).judge(
                self.flows[n - 1],
                config,
                now,
                self.local,
                tables,
            )
        }
    }

    /// The sweep over all flows.
    pub open spec fn sweep(self, config: ConfigView, now: i64, tables: TablesView) -> Sweep {
        self.swept(config, now, tables, self.flows.len() as int)
    }

    /// The tracker after a tick.
    pub open spec fn ticked(self, config: ConfigView, now: i64, tables: TablesView) -> TrackerView {
        let sweep = self.sweep(config, now, tables);
        TrackerView {
            flows: sweep.flows,
            spoken: cooldown::still_holding(
                sweep.spoken,
                now,
                config.cooldown_secs,
                sweep.spoken.len() as int,
            ),
            notices: sweep.notices,
            selfblock: self.selfblock.ticked(config, now),
            ..self
        }
    }
}

fn prune(times: &mut Vec<i64>, now: i64, window: i64)
    ensures
        final(times)@ == still_in_window(old(times)@, now, window),
{
    let ghost goal = still_in_window(times@, now, window);
    while times.len() > 0 && (now as i128) - (times[0] as i128) > window as i128
        invariant
            still_in_window(times@, now, window) == goal,
        decreases times.len(),
    {
        let ghost before = times@;
        let _ = times.remove(0);
        assert(times@ =~= before.skip(1));
    }
}

fn subject_of(flow: &Flow, corroborated: bool) -> (out: Subject)
    ensures
        forall|tables: TablesView|
            corroborated == #[trigger] flow@.corroborated(tables) ==> out@ == flow@.subject(tables),
{
    match flow.state.discovery {
        Some(protocol) => Subject::Reply { src: flow.key.src.clone(), protocol, corroborated },
        None => Subject::Blocked {
            key: FlowKey {
                src: flow.key.src.clone(),
                proto: flow.key.proto.clone(),
                dport: flow.key.dport,
            },
        },
    }
}

/// Judge one flow, and do what the judgement comes to. Returns whether the flow
/// is still of interest.
fn judge_flow(
    flow: &mut Flow,
    cfg: &Config,
    now: i64,
    local: &LocalNet,
    tables: &SocketTables,
    spoken: &mut Spoken<Subject>,
    due: &mut Vec<FlowFacts>,
    notices: &mut Vec<Notice>,
) -> (keep: bool)
    requires
        local.wf(),
    ensures
        ({
            let before = Sweep {
                flows: Seq::empty(),
                spoken: old(spoken)@,
                due: facts_view(old(due)@),
                notices: notices_view(old(notices)@),
            };
            let after = before.judge(old(flow)@, cfg@, now, local@, tables@);
            &&& after.spoken == final(spoken)@
            &&& after.due == facts_view(final(due)@)
            &&& after.notices == notices_view(final(notices)@)
            &&& keep == !(old(flow)@.judgement(cfg@, now, tables@, old(spoken)@) is Finished)
            &&& keep ==> final(flow)@ == old(flow)@.after(
                old(flow)@.judgement(cfg@, now, tables@, old(spoken)@),
                cfg@,
                now,
            )
        }),
{
    let ghost start = flow@;
    let ghost start_due = facts_view(due@);
    let ghost start_notices = notices_view(notices@);
    let ghost judgement = start.judgement(cfg@, now, tables@, spoken@);
    let window: i64 = cfg.block_window_secs as i64;
    prune(&mut flow.state.times, now, window);
    let ghost pruned = start.pruned(cfg@, now);
    assert(flow@ == pruned);

    if flow.state.times.len() == 0 {
        if (now as i128) - (flow.state.last as i128) > window as i128 {
            if flow.state.announced {
                let notice = Notice::Ended {
                    src: flow.key.src.clone(),
                    proto: flow.key.proto.clone(),
                    dport: flow.key.dport,
                    reported_as: flow.state.alerted_as_discovery,
                    lasted: elapsed_secs(flow.state.first, flow.state.last),
                    total: flow.state.total,
                };
                notices.push(notice);
                assert(notices_view(notices@) =~= start_notices + start.farewell());
            } else {
                assert(start_notices =~= start_notices + start.farewell());
            }
            return false;
        }
        return true;
    }
    let span: i128 = (flow.state.last as i128) - (flow.state.times[0] as i128);
    let sustained: bool = flow.state.times.len() >= cfg.block_min_events && span >= (
    cfg.block_min_span_secs as i64) as i128;
    if !sustained || !is_cooled(flow.state.alerted_at, now, cfg.cooldown_secs) {
        return true;
    }
    let facts = gather_facts(flow, now, local, tables);
    let subject = subject_of(flow, facts.corroborated);
    assert(pruned.corroborated(tables@) == facts.corroborated);
    assert(start.corroborated(tables@) == pruned.corroborated(tables@));
    assert(subject@ == pruned.subject(tables@));
    assert(subject@ == start.subject(tables@));
    if spoken.holds(&subject, now, cfg.cooldown_secs) {
        if flow.state.discovery.is_some() {
            flow.state.alerted_at = Some(now);
            assert(judgement is HeldBack);
        }
        return true;
    }
    spoken.note(subject, now);
    assert(judgement is Due);
    flow.state.alerted_at = Some(now);
    flow.state.announced = true;
    flow.state.alerted_as_discovery = flow.state.discovery;
    due.push(facts);
    assert(facts_view(due@) =~= start_due.push(facts@));
    true
}

proof fn lemma_window_keeps_the_end(times: Seq<i64>, now: i64, window: i64)
    ensures
        still_in_window(times, now, window).len() > 0 ==> still_in_window(
            times,
            now,
            window,
        ).last() == times.last(),
    decreases times.len(),
{
    if times.len() > 0 && now - times[0] > window {
        lemma_window_keeps_the_end(times.skip(1), now, window);
    }
}

proof fn lemma_judgement_keeps_order(
    flow: FlowView,
    judgement: Judgement,
    config: ConfigView,
    now: i64,
)
    ensures
        flow.after(judgement, config, now).key == flow.key,
        flow.state.consistent() ==> flow.after(judgement, config, now).state.consistent(),
{
    lemma_window_keeps_the_end(flow.state.times, now, config.block_window_secs as i64);
    if flow.state.times.len() == 0 {
        assert(still_in_window(flow.state.times, now, config.block_window_secs as i64).len() == 0);
    }
}

proof fn lemma_swept(tracker: TrackerView, config: ConfigView, now: i64, tables: TablesView, n: int)
    requires
        well_formed(tracker.flows),
        0 <= n <= tracker.flows.len(),
    ensures
        well_formed(tracker.swept(config, now, tables, n).flows),
        tracker.swept(config, now, tables, n).flows.len() <= n,
        forall|k: int|
            0 <= k < tracker.swept(config, now, tables, n).flows.len() ==> exists|i: int|
                0 <= i < n && (#[trigger] tracker.swept(config, now, tables, n).flows[k]).key == (
                #[trigger] tracker.flows[i]).key,
    decreases n,
{
    if n > 0 {
        lemma_swept(tracker, config, now, tables, n - 1);
        let flows = tracker.flows;
        let sweep = tracker.swept(config, now, tables, n - 1);
        let before = sweep.flows;
        let after = tracker.swept(config, now, tables, n).flows;
        let judgement = flows[n - 1].judgement(config, now, tables, sweep.spoken);
        lemma_judgement_keeps_order(flows[n - 1], judgement, config, now);
        assert(flows[n - 1].state.consistent());
        assert forall|k: int| 0 <= k < after.len() implies exists|i: int|
            0 <= i < n && (#[trigger] after[k]).key == (#[trigger] flows[i]).key by {
            if k < before.len() {
                let i = choose|i: int| 0 <= i < n - 1 && before[k].key == (#[trigger] flows[i]).key;
                assert(after[k].key == flows[i].key);
            } else {
                assert(after[k].key == flows[n - 1].key);
            }
        }
        assert forall|i: int, j: int| 0 <= i < j < after.len() implies (
        #[trigger] after[i]).key != (#[trigger] after[j]).key by {
            if j < before.len() {
                assert(before[i].key != before[j].key);
            } else {
                let k = choose|k: int| 0 <= k < n - 1 && before[i].key == (#[trigger] flows[k]).key;
                assert(flows[k].key != flows[n - 1].key);
            }
        }
        assert forall|i: int| 0 <= i < after.len() implies (
        #[trigger] after[i]).state.consistent() by {
            if i < before.len() {
                assert(before[i].state.consistent());
            }
        }
    }
}

/// What a tick came to.
pub struct Tick {
    /// The flows that are due, in the order in which they were first seen.
    pub due: Vec<FlowFacts>,
    /// The alerts about this host's own blocked traffic.
    pub alerts: Vec<Alert>,
}

impl FlowTracker {
    /// Evaluate every tracked flow as of `now`.
    ///
    /// Taking the clock as a parameter is what makes replaying history possible:
    /// the same code runs over past events at their original times. `tables` are
    /// the sockets of the moment.
    pub fn tick_at(&mut self, cfg: &Config, now: i64, tables: &SocketTables) -> (out: Tick)
        requires
            old(self).wf(),
        ensures
            final(self).wf(),
            final(self)@ == old(self)@.ticked(cfg@, now, tables@),
            facts_view(out.due@) == old(self)@.sweep(cfg@, now, tables@).due,
            alert::alerts_of(out.alerts@) == old(self)@.selfblock.raised(cfg@, now),
    {
        let ghost before = self@;
        let ghost mut n: int = 0;
        let mut due: Vec<FlowFacts> = Vec::new();
        let mut i: usize = 0;
        assert(facts_view(due@) =~= Seq::<FactsView>::empty());
        assert(self@.flows =~= before.swept(cfg@, now, tables@, 0).flows + before.flows.skip(0));
        while i < self.flows.len()
            invariant
                before == old(self)@,
                well_formed(before.flows),
                self.local.wf(),
                self.local@ == before.local,
                self.selfblock == old(self).selfblock,
                self.skipped == before.skipped,
                self.range == before.range,
                0 <= n <= before.flows.len(),
                i <= self.flows.len(),
                i == before.swept(cfg@, now, tables@, n).flows.len(),
                self@.flows == before.swept(cfg@, now, tables@, n).flows + before.flows.skip(n),
                self.spoken@ == before.swept(cfg@, now, tables@, n).spoken,
                facts_view(due@) == before.swept(cfg@, now, tables@, n).due,
                notices_view(self.notices@) == before.swept(cfg@, now, tables@, n).notices,
            decreases self.flows.len() - i,
        {
            let ghost so_far = self@.flows;
            let ghost sweep = before.swept(cfg@, now, tables@, n);
            let ghost next = before.swept(cfg@, now, tables@, n + 1);
            assert(so_far.len() == self.flows@.len());
            assert(so_far[i as int] == self.flows@[i as int]@);
            assert(so_far[i as int] == before.flows[n]);
            let keep = judge_flow(
                &mut self.flows[i],
                cfg,
                now,
                &self.local,
                tables,
                &mut self.spoken,
                &mut due,
                &mut self.notices,
            );
            if keep {
                assert(self@.flows =~= so_far.update(i as int, self.flows@[i as int]@));
                assert(next.flows =~= sweep.flows.push(self.flows@[i as int]@));
                i = i + 1;
            } else {
                let _ = self.flows.remove(i);
                assert(self@.flows =~= so_far.remove(i as int));
                assert(next.flows =~= sweep.flows);
            }
            proof {
                n = n + 1;
            }
            assert(self@.flows =~= next.flows + before.flows.skip(n));
        }
        proof {
            assert(self@.flows.len() == self.flows@.len());
            assert(n == before.flows.len());
            assert(self@.flows =~= before.swept(cfg@, now, tables@, n).flows);
            lemma_swept(before, cfg@, now, tables@, n);
        }
        self.spoken.expire(now, cfg.cooldown_secs);
        let alerts = self.selfblock.tick_at(cfg, now);
        Tick { due, alerts }
    }

    /// What the journal has not been told yet.
    pub fn take_notices(&mut self) -> (out: Vec<Notice>)
        requires
            old(self).wf(),
        ensures
            final(self).wf(),
            notices_view(out@) == old(self)@.notices,
            final(self)@ == (TrackerView { notices: Seq::empty(), ..old(self)@ }),
    {
        let mut out: Vec<Notice> = Vec::new();
        std::mem::swap(&mut out, &mut self.notices);
        assert(self@.notices =~= Seq::<NoticeView>::empty());
        out
    }

    /// The state of a flow, if it is tracked.
    pub fn state_of(&self, src: &str, proto: &str, dport: u16) -> (out: Option<&FlowState>)
        ensures
            ({
                let key = FlowKeyView { src: src@, proto: proto@, dport };
                let p = position(self@.flows, key, 0);
                match out {
                    Some(state) => p < self@.flows.len() && state@ == self@.flows[p].state,
                    None => p == self@.flows.len(),
                }
            }),
    {
        let ghost all = self@.flows;
        let ghost key = FlowKeyView { src: src@, proto: proto@, dport };
        let mut i: usize = 0;
        while i < self.flows.len()
            invariant
                i <= self.flows.len(),
                all == self@.flows,
                key == (FlowKeyView { src: src@, proto: proto@, dport }),
                position(all, key, 0) == position(all, key, i as int),
            decreases self.flows.len() - i,
        {
            assert(all[i as int] == self.flows@[i as int]@);
            let flow = &self.flows[i];
            if text_eq(flow.key.src.as_str(), src) && text_eq(flow.key.proto.as_str(), proto)
                && flow.key.dport == dport {
                return Some(&flow.state);
            }
            i = i + 1;
        }
        None
    }
}

// -- Describing ---------------------------------------------------------------

/// An active flow, as a hint for an alert about something else.
pub struct Recent {
    pub src: String,
    pub proto_lower: String,
    pub dport: u16,
    pub drops: usize,
}

pub struct RecentView {
    pub src: Seq<char>,
    pub proto_lower: Seq<char>,
    pub dport: u16,
    pub drops: nat,
}

impl View for Recent {
    type V = RecentView;

    open spec fn view(&self) -> RecentView {
        RecentView {
            src: self.src@,
            proto_lower: self.proto_lower@,
            dport: self.dport,
            drops: self.drops as nat,
        }
    }
}

pub open spec fn recent_view(v: Seq<Recent>) -> Seq<RecentView> {
    v.map_values(|r: Recent| r@)
}

impl RecentView {
    pub open spec fn of(flow: FlowView) -> RecentView {
        RecentView {
            src: flow.key.src,
            proto_lower: text::lowercased(flow.key.proto),
            dport: flow.key.dport,
            drops: flow.state.times.len(),
        }
    }

    pub open spec fn described(self, label: Seq<char>) -> Seq<char> {
        label + " → "@ + self.proto_lower + "/"@ + text::dec(self.dport as nat) + " ("@ + text::dec(
            self.drops,
        ) + " drops)"@
    }
}

/// Those of the first `n` flows that have drops in their window.
pub open spec fn active_upto(flows: Seq<FlowView>, n: int) -> Seq<RecentView>
    decreases n,
{
    if n <= 0 {
        Seq::empty()
    } else if flows[n - 1].state.times.len() > 0 {
        active_upto(flows, n - 1).push(RecentView::of(flows[n - 1]))
    } else {
        active_upto(flows, n - 1)
    }
}

/// Most drops first.
pub open spec fn drop_keys(active: Seq<RecentView>) -> Seq<i128> {
    active.map_values(|r: RecentView| (-(r.drops as int)) as i128)
}

/// The most active flows, at most `limit` of them; None where there are none.
pub open spec fn busiest(flows: Seq<FlowView>, limit: nat) -> Option<Seq<RecentView>> {
    let active = active_upto(flows, flows.len() as int);
    if active.len() == 0 {
        None
    } else {
        let shown: int = if limit < active.len() {
            limit as int
        } else {
            active.len() as int
        };
        Some(
            Seq::new(
                shown as nat,
                |k: int| active[order::order_of(drop_keys(active))[k] as int],
            ),
        )
    }
}

impl FlowTracker {
    /// The currently active dropped flows, the busiest first, for
    /// cross-referencing with an interface-level alert.
    pub fn recent(&self, limit: usize) -> (out: Option<Vec<Recent>>)
        ensures
            match out {
                Some(v) => busiest(self@.flows, limit as nat) == Some(recent_view(v@)),
                None => busiest(self@.flows, limit as nat) is None,
            },
    {
        let ghost flows = self@.flows;
        let mut active: Vec<usize> = Vec::new();
        let mut keys: Vec<i128> = Vec::new();
        let mut i: usize = 0;
        assert(flows.len() == self.flows@.len());
        while i < self.flows.len()
            invariant
                i <= self.flows.len(),
                flows == self@.flows,
                flows.len() == self.flows@.len(),
                active.len() == keys.len(),
                active.len() == active_upto(flows, i as int).len(),
                forall|k: int|
                    0 <= k < active.len() ==> (#[trigger] active@[k]) < self.flows.len()
                        && RecentView::of(flows[active@[k] as int]) == active_upto(
                        flows,
                        i as int,
                    )[k],
                forall|k: int|
                    0 <= k < keys.len() ==> #[trigger] keys@[k] == -(active_upto(
                        flows,
                        i as int,
                    )[k].drops as int),
            decreases self.flows.len() - i,
        {
            assert(flows[i as int] == self.flows@[i as int]@);
            if self.flows[i].state.times.len() > 0 {
                active.push(i);
                keys.push(-(self.flows[i].state.times.len() as i128));
            }
            i = i + 1;
        }
        let ghost all = active_upto(flows, flows.len() as int);
        if active.len() == 0 {
            return None;
        }
        assert(keys@ =~= drop_keys(all));
        let order = stable_order(&keys);
        let shown: usize = if limit < active.len() {
            limit
        } else {
            active.len()
        };
        let mut out: Vec<Recent> = Vec::new();
        let mut k: usize = 0;
        while k < shown
            invariant
                k <= shown,
                shown <= active.len(),
                flows == self@.flows,
                flows.len() == self.flows@.len(),
                order@.len() == active.len(),
                active.len() == all.len(),
                forall|j: int| 0 <= j < order@.len() ==> (#[trigger] order@[j]) < active.len(),
                forall|j: int|
                    0 <= j < active.len() ==> (#[trigger] active@[j]) < self.flows.len()
                        && RecentView::of(flows[active@[j] as int]) == all[j],
                out.len() == k,
                forall|j: int|
                    0 <= j < k ==> (#[trigger] out@[j])@ == all[order@[j] as int],
            decreases shown - k,
        {
            let at: usize = active[order[k]];
            assert(flows[at as int] == self.flows@[at as int]@);
            let flow = &self.flows[at];
            out.push(
                Recent {
                    src: flow.key.src.clone(),
                    proto_lower: flow.key.proto.as_str().to_lowercase(),
                    dport: flow.key.dport,
                    drops: flow.state.times.len(),
                },
            );
            k = k + 1;
        }
        assert(recent_view(out@) =~= busiest(flows, limit as nat).unwrap());
        Some(out)
    }
}

/// The flows described, each with the label of its source.
pub open spec fn summary_of(recent: Seq<RecentView>, labels: Seq<Seq<char>>) -> Seq<char> {
    text::join(Seq::new(recent.len(), |i: int| recent[i].described(labels[i])), "; "@)
}

/// Short description of the busiest flows; `labels` names the source of each.
pub fn recent_summary(recent: &Vec<Recent>, labels: &Vec<String>) -> (out: String)
    requires
        labels.len() == recent.len(),
    ensures
        out@ == summary_of(recent_view(recent@), text::texts(labels@)),
{
    let mut parts: Vec<String> = Vec::new();
    let mut i: usize = 0;
    while i < recent.len()
        invariant
            i <= recent.len(),
            labels.len() == recent.len(),
            parts.len() == i,
            forall|k: int|
                0 <= k < i ==> (#[trigger] parts@[k])@ == recent@[k]@.described(labels@[k]@),
        decreases recent.len() - i,
    {
        let mut part: String = labels[i].clone();
        part.append(" → ");
        part.append(recent[i].proto_lower.as_str());
        part.append("/");
        push_dec(&mut part, recent[i].dport as u64);
        part.append(" (");
        push_dec(&mut part, recent[i].drops as u64);
        part.append(" drops)");
        parts.push(part);
        i = i + 1;
    }
    let ghost r = recent_view(recent@);
    let ghost l = text::texts(labels@);
    assert(text::texts(parts@) =~= Seq::new(r.len(), |i: int| r[i].described(l[i])));
    join_texts(&parts, "; ")
}

// -- Laws ---------------------------------------------------------------------

/// Packets this host sent itself, packets addressed to a group and packets on an
/// ignored port never reach a flow, however many there are.
pub proof fn only_a_record_that_can_mean_a_flood_reaches_a_flow(
    tracker: TrackerView,
    event: EventView,
    config: ConfigView,
)
    requires
        config.ignore_ports.contains(event.dport) || (addr::ip_of(event.src) is Some
            && tracker.local.is_local(addr::ip_of(event.src).unwrap())) || (addr::ip_of(
            event.dst,
        ) is Some && tracker.local.is_group(addr::ip_of(event.dst).unwrap())),
    ensures
        tracker.recorded(event, config).flows == tracker.flows,
        tracker.recorded(event, config).notices == tracker.notices,
{
}

/// An ignored port is dropped before anything else is looked at: the record
/// changes nothing but the count of ignored ones.
pub proof fn an_ignored_port_comes_before_anything_else(
    tracker: TrackerView,
    event: EventView,
    config: ConfigView,
)
    requires
        config.ignore_ports.contains(event.dport),
        tracker.skipped.ignored_port < u64::MAX,
    ensures
        tracker.recorded(event, config) == (TrackerView {
            skipped: SkipCounts {
                ignored_port: (tracker.skipped.ignored_port + 1) as u64,
                ..tracker.skipped
            },
            ..tracker
        }),
{
}

/// Every record is accounted for: it joins a flow, or one of the counts of
/// filtered records grows by one.
pub proof fn every_record_is_accounted_for(
    tracker: TrackerView,
    event: EventView,
    config: ConfigView,
)
    requires
        tracker.skipped.sum() < u64::MAX,
    ensures
        tracker.recorded(event, config).skipped.sum() == tracker.skipped.sum() + if tracker.intake(
            event,
            config,
        ) is Recorded {
            0int
        } else {
            1int
        },
{
}

proof fn lemma_swept_alike(
    tracker: TrackerView,
    a: ConfigView,
    b: ConfigView,
    now: i64,
    tables: TablesView,
    n: int,
)
    requires
        0 <= n <= tracker.flows.len(),
        b == (ConfigView { discovery_replies: b.discovery_replies, ..a }),
    ensures
        tracker.swept(a, now, tables, n) == tracker.swept(b, now, tables, n),
    decreases n,
{
    if n > 0 {
        lemma_swept_alike(tracker, a, b, now, tables, n - 1);
    }
}

/// Quiet suppresses the interrupt, not the record: whether replies to discovery
/// are to be quiet or loud, the same records are tracked and the same flows are
/// reported.
pub proof fn quiet_and_loud_replies_are_tracked_alike(
    tracker: TrackerView,
    event: EventView,
    quiet: ConfigView,
    now: i64,
    tables: TablesView,
)
    requires
        quiet.discovery_replies is Quiet,
    ensures
        ({
            let loud = ConfigView { discovery_replies: DiscoveryReplies::Alert, ..quiet };
            &&& tracker.recorded(event, quiet) == tracker.recorded(event, loud)
            &&& tracker.sweep(quiet, now, tables) == tracker.sweep(loud, now, tables)
        }),
{
    let loud = ConfigView { discovery_replies: DiscoveryReplies::Alert, ..quiet };
    lemma_swept_alike(tracker, quiet, loud, now, tables, tracker.flows.len() as int);
}

/// Where discovery replies are to be ignored, none reaches a flow, corroborated
/// or not.
pub proof fn ignored_discovery_replies_reach_no_flow(
    tracker: TrackerView,
    event: EventView,
    config: ConfigView,
)
    requires
        config.discovery_replies is Ignore,
        tracker.classified(event) is Some,
    ensures
        tracker.recorded(event, config).flows == tracker.flows,
{
}

/// Discovery is sticky off: once a flow is no discovery flow, no record makes it
/// one again.
pub proof fn discovery_never_comes_back(
    state: StateView,
    event: EventView,
    classified: Option<Seq<char>>,
)
    requires
        state.discovery is None,
    ensures
        state.recorded(event, classified).discovery is None,
{
}

/// A flow stays a discovery flow only as long as every record answers the same
/// protocol; the first that does not makes it a blocked flow that is judged from
/// scratch, with no cooldown and no report inherited.
pub proof fn a_disagreeing_record_resets_the_flow(
    state: StateView,
    event: EventView,
    classified: Option<Seq<char>>,
)
    requires
        state.discovery is Some,
        state.discovery != classified,
    ensures
        ({
            let after = state.recorded(event, classified);
            &&& after.discovery is None
            &&& after.alerted_at is None
            &&& !after.announced
            &&& after.alerted_as_discovery is None
        }),
{
}

/// One destination too many refuses corroboration, and for good: no later record
/// earns it back.
pub proof fn too_many_destinations_refuse_corroboration(
    flow: FlowView,
    event: EventView,
    classified: Option<Seq<char>>,
    tables: TablesView,
)
    requires
        flow.state.dst_overflow || (flow.state.dsts.len() >= MAX_FLOW_DSTS
            && !flow.state.dsts.contains(event.dst)),
    ensures
        ({
            let after = FlowView { state: flow.state.recorded(event, classified), ..flow };
            after.state.dst_overflow && !after.corroborated(tables)
        }),
{
}

/// Corroboration covers every destination: one that no local socket could have
/// received a packet on is enough to refuse it.
pub proof fn one_uncovered_destination_refuses_corroboration(
    flow: FlowView,
    tables: TablesView,
    i: int,
)
    requires
        0 <= i < flow.state.dsts.len(),
        !tables.solicited(
            flow.key.proto,
            flow.key.src,
            flow.state.sport,
            flow.state.dsts[i],
            flow.key.dport,
        ),
    ensures
        !flow.corroborated(tables),
{
}

/// A round that is held back says nothing, now or later: it is not announced, so
/// it has no farewell.
pub proof fn a_round_held_back_never_reports_stopping(
    flow: FlowView,
    config: ConfigView,
    now: i64,
)
    requires
        !flow.state.announced,
    ensures
        flow.after(Judgement::HeldBack, config, now).farewell() == Seq::<NoticeView>::empty(),
        flow.after(Judgement::Quiet, config, now).farewell() == Seq::<NoticeView>::empty(),
{
}

/// A flow signs off the way it was announced: what its farewell names is the
/// protocol it was reported on, or none.
pub proof fn a_flow_signs_off_the_way_it_was_announced(
    flow: FlowView,
    config: ConfigView,
    now: i64,
)
    ensures
        ({
            let announced = flow.after(Judgement::Due, config, now);
            &&& announced.farewell().len() == 1
            &&& announced.farewell()[0] matches NoticeView::Ended { reported_as, .. }
            &&& reported_as == flow.state.discovery
        }),
{
}

/// A brief flow raises nothing: fewer drops than the minimum, or a span shorter
/// than the minimum, is never due.
pub proof fn a_brief_flow_is_never_due(
    flow: FlowView,
    config: ConfigView,
    now: i64,
    tables: TablesView,
    spoken: Seq<(SubjectView, i64)>,
)
    requires
        !flow.pruned(config, now).sustained(config),
    ensures
        !(flow.judgement(config, now, tables, spoken) is Due),
{
}

/// A sustained flood is due: enough recent drops over a long enough span, from a
/// flow that is no discovery flow and has not alerted within the cooldown.
pub proof fn a_sustained_flood_is_due(
    flow: FlowView,
    config: ConfigView,
    now: i64,
    tables: TablesView,
    spoken: Seq<(SubjectView, i64)>,
)
    requires
        flow.state.discovery is None,
        flow.pruned(config, now).state.times.len() > 0,
        flow.pruned(config, now).sustained(config),
        cooldown::cooled(flow.state.alerted_at, now, config.cooldown_secs),
        !cooldown::held(
            spoken,
            SubjectView::Blocked { key: flow.key },
            now,
            config.cooldown_secs,
        ),
    ensures
        flow.judgement(config, now, tables, spoken) is Due,
{
}

// -- Laws over several flows and several ticks --------------------------------

/// Something that happens to a tracker.
pub enum Step {
    /// A drop record comes in.
    Record { event: EventView },
    /// The flows are evaluated.
    Tick { now: i64, tables: TablesView },
    /// This host's addresses are read again.
    Addresses { local: LocalView },
    /// The journal takes what it has not been told yet.
    Told,
}

impl TrackerView {
    pub open spec fn stepped(self, step: Step, config: ConfigView) -> TrackerView {
        match step {
            Step::Record { event } => self.recorded(event, config),
            Step::Tick { now, tables } => self.ticked(config, now, tables),
            Step::Addresses { local } => TrackerView { local, ..self },
            Step::Told => TrackerView { notices: Seq::empty(), ..self },
        }
    }

    /// The tracker after the first `n` steps.
    pub open spec fn run(self, steps: Seq<Step>, config: ConfigView, n: int) -> TrackerView
        decreases n,
    {
        if n <= 0 {
            self
        } else {
            self.run(steps, config, n - 1).stepped(steps[n - 1], config)
        }
    }

    /// What a tick makes of the flow at position `i`.
    pub open spec fn judgement_of(
        self,
        config: ConfigView,
        now: i64,
        tables: TablesView,
        i: int,
    ) -> Judgement {
        self.flows[i].judgement(config, now, tables, self.swept(config, now, tables, i).spoken)
    }
}

/// Every evaluation among these steps comes before a cooldown that began at
/// `start` is over.
pub open spec fn within_cooldown(steps: Seq<Step>, start: i64, config: ConfigView) -> bool {
    forall|k: int|
        0 <= k < steps.len() ==> ((#[trigger] steps[k]) matches Step::Tick { now, .. } ==> now
            - start < config.cooldown_secs as i64)
}

proof fn lemma_pruned_subject(flow: FlowView, config: ConfigView, now: i64, tables: TablesView)
    ensures
        flow.pruned(config, now).subject(tables) == flow.subject(tables),
        flow.pruned(config, now).corroborated(tables) == flow.corroborated(tables),
{
    let pruned = flow.pruned(config, now);
    assert(pruned.state.dsts == flow.state.dsts);
    assert(pruned.corroborated(tables) == flow.corroborated(tables));
}

proof fn lemma_held_is_not_due(
    flow: FlowView,
    config: ConfigView,
    now: i64,
    tables: TablesView,
    spoken: Seq<(SubjectView, i64)>,
)
    ensures
        cooldown::held(spoken, flow.subject(tables), now, config.cooldown_secs)
            ==> !(flow.judgement(config, now, tables, spoken) is Due),
{
    lemma_pruned_subject(flow, config, now, tables);
}

/// A subject that is held back at position `m` of a sweep is not due from there
/// on, and stays on record.
proof fn lemma_held_through_a_sweep(
    tracker: TrackerView,
    config: ConfigView,
    now: i64,
    tables: TablesView,
    subject: SubjectView,
    m: int,
    n: int,
)
    requires
        0 <= m <= n <= tracker.flows.len(),
        cooldown::held(
            tracker.swept(config, now, tables, m).spoken,
            subject,
            now,
            config.cooldown_secs,
        ),
    ensures
        cooldown::last(tracker.swept(config, now, tables, n).spoken, subject, 0)
            == cooldown::last(tracker.swept(config, now, tables, m).spoken, subject, 0),
        forall|i: int|
            m <= i < n && (#[trigger] tracker.flows[i]).subject(tables) == subject
                ==> !(tracker.judgement_of(config, now, tables, i) is Due),
    decreases n - m,
{
    if m < n {
        lemma_held_through_a_sweep(tracker, config, now, tables, subject, m, n - 1);
        let flow = tracker.flows[n - 1];
        let before = tracker.swept(config, now, tables, n - 1);
        let after = tracker.swept(config, now, tables, n);
        assert(cooldown::held(before.spoken, subject, now, config.cooldown_secs));
        lemma_held_is_not_due(flow, config, now, tables, before.spoken);
        if flow.judgement(config, now, tables, before.spoken) is Due {
            assert(after.spoken == cooldown::noted(
                before.spoken,
                flow.subject(tables),
                now,
                0,
            ));
            cooldown::subjects_do_not_share_a_cooldown(
                before.spoken,
                flow.subject(tables),
                subject,
                now,
            );
        } else {
            assert(after.spoken == before.spoken);
        }
        assert forall|i: int|
            m <= i < n && (#[trigger] tracker.flows[i]).subject(tables)
                == subject implies !(tracker.judgement_of(config, now, tables, i) is Due) by {
            if i == n - 1 {
                assert(tracker.judgement_of(config, now, tables, i) == flow.judgement(
                    config,
                    now,
                    tables,
                    before.spoken,
                ));
            }
        }
    }
}

/// A subject that none of the first `n` flows speaks for is as it was before the
/// sweep.
proof fn lemma_unspoken_through_a_sweep(
    tracker: TrackerView,
    config: ConfigView,
    now: i64,
    tables: TablesView,
    subject: SubjectView,
    n: int,
)
    requires
        0 <= n <= tracker.flows.len(),
        forall|i: int| 0 <= i < n ==> (#[trigger] tracker.flows[i]).subject(tables) != subject,
    ensures
        cooldown::last(tracker.swept(config, now, tables, n).spoken, subject, 0)
            == cooldown::last(tracker.spoken, subject, 0),
    decreases n,
{
    if n > 0 {
        lemma_unspoken_through_a_sweep(tracker, config, now, tables, subject, n - 1);
        let flow = tracker.flows[n - 1];
        let before = tracker.swept(config, now, tables, n - 1);
        if flow.judgement(config, now, tables, before.spoken) is Due {
            cooldown::subjects_do_not_share_a_cooldown(
                before.spoken,
                flow.subject(tables),
                subject,
                now,
            );
        }
    }
}

proof fn lemma_held_through_a_run(
    tracker: TrackerView,
    config: ConfigView,
    steps: Seq<Step>,
    subject: SubjectView,
    start: i64,
    n: int,
)
    requires
        0 <= n <= steps.len(),
        within_cooldown(steps, start, config),
        cooldown::last(tracker.spoken, subject, 0) == Some(start),
    ensures
        cooldown::last(tracker.run(steps, config, n).spoken, subject, 0) == Some(start),
    decreases n,
{
    if n > 0 {
        lemma_held_through_a_run(tracker, config, steps, subject, start, n - 1);
        let before = tracker.run(steps, config, n - 1);
        match steps[n - 1] {
            Step::Tick { now, tables } => {
                let all = before.flows.len() as int;
                assert(cooldown::held(before.spoken, subject, now, config.cooldown_secs));
                lemma_held_through_a_sweep(before, config, now, tables, subject, 0, all);
                cooldown::a_cooldown_is_kept_until_it_is_over(
                    before.sweep(config, now, tables).spoken,
                    subject,
                    now,
                    config.cooldown_secs,
                );
            },
            _ => {},
        }
    }
}

proof fn lemma_on_record_after_a_tick(
    tracker: TrackerView,
    config: ConfigView,
    now: i64,
    tables: TablesView,
    i: int,
)
    requires
        0 <= i < tracker.flows.len(),
        tracker.judgement_of(config, now, tables, i) is Due,
        0 < config.cooldown_secs as i64,
    ensures
        cooldown::last(
            tracker.ticked(config, now, tables).spoken,
            tracker.flows[i].subject(tables),
            0,
        ) == Some(now),
{
    let subject = tracker.flows[i].subject(tables);
    let before = tracker.swept(config, now, tables, i);
    let all = tracker.flows.len() as int;
    cooldown::an_alert_is_on_record(before.spoken, subject, now);
    assert(tracker.swept(config, now, tables, i + 1) == before.judge(
        tracker.flows[i],
        config,
        now,
        tracker.local,
        tables,
    ));
    assert(cooldown::last(tracker.swept(config, now, tables, i + 1).spoken, subject, 0) == Some(
        now,
    ));
    lemma_held_through_a_sweep(tracker, config, now, tables, subject, i + 1, all);
    cooldown::a_cooldown_is_kept_until_it_is_over(
        tracker.sweep(config, now, tables).spoken,
        subject,
        now,
        config.cooldown_secs,
    );
}

/// A subject alerts at most once per cooldown, whatever happens in between: once
/// a flow was due, no flow about the same subject is due again before the
/// cooldown is over. It makes no difference that the first flow was forgotten
/// meanwhile, and came back, or that the next round came from another port.
pub proof fn one_alert_per_cooldown(
    tracker: TrackerView,
    config: ConfigView,
    now: i64,
    tables: TablesView,
    i: int,
    steps: Seq<Step>,
    later: i64,
    later_tables: TablesView,
    j: int,
)
    requires
        0 <= i < tracker.flows.len(),
        tracker.judgement_of(config, now, tables, i) is Due,
        within_cooldown(steps, now, config),
        now <= later,
        later - now < config.cooldown_secs as i64,
    ensures
        ({
            let after = tracker.ticked(config, now, tables).run(
                steps,
                config,
                steps.len() as int,
            );
            0 <= j < after.flows.len() && after.flows[j].subject(later_tables)
                == tracker.flows[i].subject(tables) ==> !(after.judgement_of(
                config,
                later,
                later_tables,
                j,
            ) is Due)
        }),
{
    let subject = tracker.flows[i].subject(tables);
    let ticked = tracker.ticked(config, now, tables);
    let after = ticked.run(steps, config, steps.len() as int);
    lemma_on_record_after_a_tick(tracker, config, now, tables, i);
    lemma_held_through_a_run(ticked, config, steps, subject, now, steps.len() as int);
    if 0 <= j < after.flows.len() {
        assert(cooldown::held(after.spoken, subject, later, config.cooldown_secs));
        lemma_held_through_a_sweep(
            after,
            config,
            later,
            later_tables,
            subject,
            0,
            after.flows.len() as int,
        );
    }
}

/// The facts of a tick hold one about this source, protocol and port, as a
/// blocked flow or as answers on a discovery protocol.
pub open spec fn reports(
    due: Seq<FactsView>,
    key: FlowKeyView,
    answers: Option<Seq<char>>,
) -> bool {
    exists|k: int| 0 <= k < due.len() && is_about((#[trigger] due[k]), key, answers)
}

pub open spec fn is_about(
    facts: FactsView,
    key: FlowKeyView,
    answers: Option<Seq<char>>,
) -> bool {
    &&& facts.src == key.src
    &&& facts.proto_lower == text::lowercased(key.proto)
    &&& facts.dport == key.dport
    &&& facts.discovery == answers
}

/// No other flow is about the same source, protocol and port, however the
/// protocol is spelled.
pub open spec fn sole_target(flows: Seq<FlowView>, p: int) -> bool {
    forall|i: int|
        0 <= i < flows.len() && i != p ==> (#[trigger] flows[i]).key.src != flows[p].key.src
            || text::lowercased(flows[i].key.proto) != text::lowercased(flows[p].key.proto)
            || flows[i].key.dport != flows[p].key.dport
}

proof fn lemma_reported(
    tracker: TrackerView,
    config: ConfigView,
    now: i64,
    tables: TablesView,
    p: int,
    n: int,
)
    requires
        0 <= p < tracker.flows.len(),
        0 <= n <= tracker.flows.len(),
        sole_target(tracker.flows, p),
    ensures
        reports(
            tracker.swept(config, now, tables, n).due,
            tracker.flows[p].key,
            tracker.flows[p].state.discovery,
        ) <==> (p < n && tracker.judgement_of(config, now, tables, p) is Due),
    decreases n,
{
    if n > 0 {
        lemma_reported(tracker, config, now, tables, p, n - 1);
        let key = tracker.flows[p].key;
        let answers = tracker.flows[p].state.discovery;
        let flow = tracker.flows[n - 1];
        let before = tracker.swept(config, now, tables, n - 1);
        let after = tracker.swept(config, now, tables, n);
        let facts = flow.pruned(config, now).facts(now, tracker.local, tables);
        if flow.judgement(config, now, tables, before.spoken) is Due {
            assert(after.due == before.due.push(facts));
            if n - 1 == p {
                assert(is_about(after.due[before.due.len() as int], key, answers));
            } else {
                assert(!is_about(facts, key, answers));
                if reports(before.due, key, answers) {
                    let k = choose|k: int|
                        0 <= k < before.due.len() && is_about(
                            (#[trigger] before.due[k]),
                            key,
                            answers,
                        );
                    assert(is_about(after.due[k], key, answers));
                }
                if reports(after.due, key, answers) {
                    let k = choose|k: int|
                        0 <= k < after.due.len() && is_about(
                            (#[trigger] after.due[k]),
                            key,
                            answers,
                        );
                    assert(k < before.due.len());
                    assert(is_about(before.due[k], key, answers));
                }
            }
        } else {
            assert(after.due == before.due);
        }
    }
}

/// A tick reports every flow that is due, each with its facts, and nothing else.
pub proof fn a_tick_reports_what_is_due(
    tracker: TrackerView,
    config: ConfigView,
    now: i64,
    tables: TablesView,
    facts: FactsView,
)
    ensures
        tracker.sweep(config, now, tables).due.contains(facts) <==> exists|i: int|
            0 <= i < tracker.flows.len() && (#[trigger] tracker.judgement_of(
                config,
                now,
                tables,
                i,
            )) is Due && facts == tracker.flows[i].pruned(config, now).facts(
                now,
                tracker.local,
                tables,
            ),
{
    lemma_due_upto(tracker, config, now, tables, facts, tracker.flows.len() as int);
}

proof fn lemma_due_upto(
    tracker: TrackerView,
    config: ConfigView,
    now: i64,
    tables: TablesView,
    facts: FactsView,
    n: int,
)
    requires
        0 <= n <= tracker.flows.len(),
    ensures
        tracker.swept(config, now, tables, n).due.contains(facts) <==> exists|i: int|
            0 <= i < n && (#[trigger] tracker.judgement_of(config, now, tables, i)) is Due && facts
                == tracker.flows[i].pruned(config, now).facts(now, tracker.local, tables),
    decreases n,
{
    if n > 0 {
        lemma_due_upto(tracker, config, now, tables, facts, n - 1);
        let before = tracker.swept(config, now, tables, n - 1);
        let after = tracker.swept(config, now, tables, n);
        let last = tracker.flows[n - 1].pruned(config, now).facts(now, tracker.local, tables);
        if tracker.judgement_of(config, now, tables, n - 1) is Due {
            assert(after.due == before.due.push(last));
            assert(after.due[before.due.len() as int] == last);
            if before.due.contains(facts) {
                let k = choose|k: int| 0 <= k < before.due.len() && before.due[k] == facts;
                assert(after.due[k] == facts);
            }
            if after.due.contains(facts) && facts != last {
                let k = choose|k: int| 0 <= k < after.due.len() && after.due[k] == facts;
                assert(before.due[k] == facts);
            }
        } else {
            assert(after.due == before.due);
        }
    } else {
        assert(!tracker.swept(config, now, tables, n).due.contains(facts));
    }
}

/// A blocked flow is reported at most once per cooldown, however often it was
/// forgotten and came back in between.
pub proof fn a_blocked_flow_is_reported_once_per_cooldown(
    tracker: TrackerView,
    config: ConfigView,
    now: i64,
    tables: TablesView,
    i: int,
    steps: Seq<Step>,
    later: i64,
    later_tables: TablesView,
    j: int,
)
    requires
        0 <= i < tracker.flows.len(),
        sole_target(tracker.flows, i),
        tracker.flows[i].state.discovery is None,
        reports(tracker.sweep(config, now, tables).due, tracker.flows[i].key, None),
        within_cooldown(steps, now, config),
        now <= later,
        later - now < config.cooldown_secs as i64,
        ({
            let after = tracker.ticked(config, now, tables).run(
                steps,
                config,
                steps.len() as int,
            );
            &&& 0 <= j < after.flows.len()
            &&& sole_target(after.flows, j)
            &&& after.flows[j].key == tracker.flows[i].key
            &&& after.flows[j].state.discovery is None
        }),
    ensures
        !reports(
            tracker.ticked(config, now, tables).run(steps, config, steps.len() as int).sweep(
                config,
                later,
                later_tables,
            ).due,
            tracker.flows[i].key,
            None,
        ),
{
    let after = tracker.ticked(config, now, tables).run(steps, config, steps.len() as int);
    lemma_reported(tracker, config, now, tables, i, tracker.flows.len() as int);
    lemma_reported(after, config, later, later_tables, j, after.flows.len() as int);
    one_alert_per_cooldown(tracker, config, now, tables, i, steps, later, later_tables, j);
}

/// Two discovery rounds of one device and protocol, within a cooldown: the
/// second is reported exactly where it is of the other tier, provided that tier
/// has not spoken itself.
pub proof fn a_second_round_is_reported_only_on_the_other_tier(
    tracker: TrackerView,
    config: ConfigView,
    now: i64,
    tables: TablesView,
    i: int,
    steps: Seq<Step>,
    later: i64,
    later_tables: TablesView,
    j: int,
)
    requires
        0 <= i < tracker.flows.len(),
        tracker.flows[i].state.discovery is Some,
        tracker.judgement_of(config, now, tables, i) is Due,
        within_cooldown(steps, now, config),
        now <= later,
        later - now < config.cooldown_secs as i64,
        ({
            let first = tracker.flows[i];
            let after = tracker.ticked(config, now, tables).run(
                steps,
                config,
                steps.len() as int,
            );
            let second = after.flows[j];
            let other = SubjectView::Reply {
                src: first.key.src,
                protocol: first.state.discovery.unwrap(),
                corroborated: !first.corroborated(tables),
            };
            &&& 0 <= j < after.flows.len()
            &&& sole_target(after.flows, j)
            &&& second.key.src == first.key.src
            &&& second.state.discovery == first.state.discovery
            &&& second.pruned(config, later).state.times.len() > 0
            &&& second.pruned(config, later).sustained(config)
            &&& cooldown::cooled(second.state.alerted_at, later, config.cooldown_secs)
            &&& !cooldown::held(after.spoken, other, later, config.cooldown_secs)
            &&& forall|k: int|
                0 <= k < j ==> (#[trigger] after.flows[k]).subject(later_tables) != other
        }),
    ensures
        ({
            let after = tracker.ticked(config, now, tables).run(
                steps,
                config,
                steps.len() as int,
            );
            reports(
                after.sweep(config, later, later_tables).due,
                after.flows[j].key,
                after.flows[j].state.discovery,
            ) <==> after.flows[j].corroborated(later_tables) != tracker.flows[i].corroborated(
                tables,
            )
        }),
{
    let first = tracker.flows[i];
    let after = tracker.ticked(config, now, tables).run(steps, config, steps.len() as int);
    let second = after.flows[j];
    let other = SubjectView::Reply {
        src: first.key.src,
        protocol: first.state.discovery.unwrap(),
        corroborated: !first.corroborated(tables),
    };
    lemma_reported(after, config, later, later_tables, j, after.flows.len() as int);
    lemma_pruned_subject(second, config, later, later_tables);
    if second.corroborated(later_tables) == first.corroborated(tables) {
        assert(second.subject(later_tables) == first.subject(tables));
        one_alert_per_cooldown(
            tracker,
            config,
            now,
            tables,
            i,
            steps,
            later,
            later_tables,
            j,
        );
    } else {
        assert(second.subject(later_tables) == other);
        lemma_unspoken_through_a_sweep(after, config, later, later_tables, other, j);
    }
}

/// The times of a flow that lie in the window.
pub open spec fn recent_times(times: Seq<i64>, now: i64, window: i64) -> Seq<i64> {
    times.filter(|t: i64| now - t <= window)
}

pub open spec fn in_order(times: Seq<i64>) -> bool {
    forall|i: int, j: int| 0 <= i <= j < times.len() ==> times[i] <= times[j]
}

proof fn lemma_all_recent(times: Seq<i64>, now: i64, window: i64)
    requires
        forall|i: int| 0 <= i < times.len() ==> now - #[trigger] times[i] <= window,
    ensures
        recent_times(times, now, window) == times,
    decreases times.len(),
{
    reveal(Seq::filter);
    if times.len() > 0 {
        assert forall|i: int| 0 <= i < times.drop_last().len() implies now
            - #[trigger] times.drop_last()[i] <= window by {
            assert(now - times[i] <= window);
        }
        lemma_all_recent(times.drop_last(), now, window);
        assert(now - times[times.len() - 1] <= window);
        assert(times =~= times.drop_last().push(times.last()));
    }
}

proof fn lemma_window_of_times_in_order(times: Seq<i64>, now: i64, window: i64)
    requires
        in_order(times),
    ensures
        still_in_window(times, now, window) == recent_times(times, now, window),
    decreases times.len(),
{
    reveal(Seq::filter);
    if times.len() > 0 {
        let rest = times.skip(1);
        if now - times[0] > window {
            assert forall|i: int, j: int| 0 <= i <= j < rest.len() implies rest[i] <= rest[j] by {
                assert(times[i + 1] <= times[j + 1]);
            }
            lemma_window_of_times_in_order(rest, now, window);
            let first = seq![times[0]];
            let pred = |t: i64| now - t <= window;
            assert(times =~= first + rest);
            Seq::filter_distributes_over_add(first, rest, pred);
            assert(first.drop_last() =~= Seq::<i64>::empty());
            assert(first.drop_last().filter(pred) =~= Seq::<i64>::empty());
            assert(first.last() == times[0]);
            assert(first.filter(pred) =~= Seq::<i64>::empty());
            assert(first.filter(pred) + rest.filter(pred) =~= rest.filter(pred));
        } else {
            assert forall|i: int| 0 <= i < times.len() implies now - #[trigger] times[i]
                <= window by {
                assert(times[0] <= times[i]);
            }
            lemma_all_recent(times, now, window);
        }
    }
}

/// A tick reports a blocked flow, among however many others, exactly where
/// enough of its drops lie in the window and they span long enough, given that
/// its cooldown is over and its drops came in order.
pub proof fn a_blocked_flow_is_reported_when_it_is_sustained(
    tracker: TrackerView,
    config: ConfigView,
    now: i64,
    tables: TablesView,
    p: int,
)
    requires
        well_formed(tracker.flows),
        0 <= p < tracker.flows.len(),
        sole_target(tracker.flows, p),
        tracker.flows[p].state.discovery is None,
        in_order(tracker.flows[p].state.times),
        cooldown::cooled(tracker.flows[p].state.alerted_at, now, config.cooldown_secs),
        !cooldown::held(
            tracker.spoken,
            SubjectView::Blocked { key: tracker.flows[p].key },
            now,
            config.cooldown_secs,
        ),
    ensures
        ({
            let recent = recent_times(
                tracker.flows[p].state.times,
                now,
                config.block_window_secs as i64,
            );
            reports(
                tracker.sweep(config, now, tables).due,
                tracker.flows[p].key,
                None,
            ) <==> recent.len() >= 1 && recent.len() >= config.block_min_events && recent.last()
                - recent[0] >= config.block_min_span_secs as i64
        }),
{
    let flow = tracker.flows[p];
    let window = config.block_window_secs as i64;
    let subject = SubjectView::Blocked { key: flow.key };
    lemma_reported(tracker, config, now, tables, p, tracker.flows.len() as int);
    lemma_window_of_times_in_order(flow.state.times, now, window);
    lemma_window_keeps_the_end(flow.state.times, now, window);
    lemma_pruned_subject(flow, config, now, tables);
    assert(flow.state.consistent());
    assert forall|i: int| 0 <= i < p implies (#[trigger] tracker.flows[i]).subject(tables)
        != subject by {
        assert(tracker.flows[i].key != tracker.flows[p].key);
    }
    lemma_unspoken_through_a_sweep(tracker, config, now, tables, subject, p);
}

/// A reported discovery flow that a record revokes is judged by the next tick as
/// the blocked flow it now is, and from scratch: it is reported exactly where
/// its drops in the window are enough and span long enough, the discovery report
/// and its cooldown notwithstanding.
pub proof fn a_revoked_flow_is_judged_from_scratch(
    tracker: TrackerView,
    event: EventView,
    config: ConfigView,
    now: i64,
    tables: TablesView,
)
    requires
        well_formed(tracker.flows),
        tracker.intake(event, config) is Recorded,
        position(tracker.flows, key_of(event), 0) < tracker.flows.len(),
        tracker.state_before(event).disqualified_by(tracker.classified(event)),
        in_order(tracker.state_before(event).times.push(event.ts)),
        sole_target(tracker.flows, position(tracker.flows, key_of(event), 0)),
        !cooldown::held(
            tracker.spoken,
            SubjectView::Blocked { key: key_of(event) },
            now,
            config.cooldown_secs,
        ),
    ensures
        ({
            let recent = recent_times(
                tracker.state_before(event).times.push(event.ts),
                now,
                config.block_window_secs as i64,
            );
            reports(
                tracker.recorded(event, config).sweep(config, now, tables).due,
                key_of(event),
                None,
            ) <==> recent.len() >= 1 && recent.len() >= config.block_min_events && recent.last()
                - recent[0] >= config.block_min_span_secs as i64
        }),
{
    let p = position(tracker.flows, key_of(event), 0);
    let after = tracker.recorded(event, config);
    lemma_position(tracker.flows, key_of(event), 0);
    lemma_joined_well_formed(tracker, event);
    assert(after == tracker.joined(event));
    assert(after.flows[p].key == key_of(event));
    assert forall|i: int| 0 <= i < after.flows.len() && i != p implies (
    #[trigger] after.flows[i]).key.src != after.flows[p].key.src || text::lowercased(
        after.flows[i].key.proto,
    ) != text::lowercased(after.flows[p].key.proto) || after.flows[i].key.dport
        != after.flows[p].key.dport by {
        assert(after.flows[i] == tracker.flows[i]);
    }
    a_blocked_flow_is_reported_when_it_is_sustained(after, config, now, tables, p);
}

/// A record is taken by the first of these that holds of it: its port is ignored;
/// this host sent it; it goes to a group; it answers a discovery of this host and
/// such replies are ignored. Otherwise it joins a flow.
pub proof fn a_record_is_taken_by_the_first_rule_that_holds(
    tracker: TrackerView,
    event: EventView,
    config: ConfigView,
)
    ensures
        ({
            let ignored = config.ignore_ports.contains(event.dport);
            let own = addr::ip_of(event.src) matches Some(ip) && tracker.local.is_local(ip);
            let grouped = addr::ip_of(event.dst) matches Some(ip) && tracker.local.is_group(ip);
            let quiet = config.discovery_replies is Ignore && tracker.classified(event) is Some;
            let taken = tracker.intake(event, config);
            &&& taken is IgnoredPort <==> ignored
            &&& taken is SelfSourced <==> !ignored && own
            &&& taken is GroupDest <==> !ignored && !own && grouped
            &&& taken is DiscoveryReply <==> !ignored && !own && !grouped && quiet
            &&& taken is Recorded <==> !ignored && !own && !grouped && !quiet
            &&& taken is SelfSourced ==> (taken == (Intake::SelfSourced { unicast: true })
                <==> addr::ip_of(event.dst) is Some && !grouped)
        }),
{
}

/// A record that joins a flow adds one drop, its bytes and its time; the flow's
/// interface, port of origin and last destination become its own.
pub proof fn a_record_adds_one_drop_and_its_bytes(state: StateView, event: EventView)
    requires
        state.total < u64::MAX,
        state.bytes + event.len <= u64::MAX,
    ensures
        ({
            let after = state.counted(event);
            &&& after.total == state.total + 1
            &&& after.bytes == state.bytes + event.len
            &&& after.times == state.times.push(event.ts)
            &&& after.first == state.first
            &&& after.last == event.ts
            &&& after.iface == event.iface
            &&& after.sport == event.sport
            &&& after.dst == event.dst
            &&& after.alerted_at == state.alerted_at
            &&& after.discovery == state.discovery
            &&& after.announced == state.announced
            &&& after.alerted_as_discovery == state.alerted_as_discovery
        }),
        state.has_room(event.len),
{
}

/// A flow keeps up to eight different destinations, each once. One that does not
/// fit any more is remembered as an overflow, for good.
pub proof fn a_flow_keeps_eight_destinations(state: StateView, event: EventView)
    ensures
        ({
            let after = state.counted(event);
            let known = state.dsts.contains(event.dst);
            &&& known ==> after.dsts == state.dsts && after.dst_overflow == state.dst_overflow
            &&& !known && state.dsts.len() < 8 ==> after.dsts == state.dsts.push(event.dst)
                && after.dst_overflow == state.dst_overflow
            &&& !known && state.dsts.len() >= 8 ==> after.dsts == state.dsts && after.dst_overflow
            &&& state.dst_overflow ==> after.dst_overflow
        }),
{
}

/// A flow is opened by its first record, and holds that record alone.
pub proof fn a_flow_opens_with_its_first_record(
    event: EventView,
    classified: Option<Seq<char>>,
)
    ensures
        ({
            let state = StateView::opened(event, classified).counted(event);
            &&& state.total == 1
            &&& state.bytes == event.len
            &&& state.times == seq![event.ts]
            &&& state.first == event.ts && state.last == event.ts
            &&& state.dsts == seq![event.dst]
            &&& !state.dst_overflow
            &&& state.alerted_at is None
            &&& !state.announced
            &&& state.discovery == classified
            &&& state.alerted_as_discovery is None
        }),
{
    let state = StateView::opened(event, classified).counted(event);
    assert(StateView::opened(event, classified).dsts[0] == event.dst);
    assert(state.times =~= seq![event.ts]);
}

/// A record joins the flow of its sender, protocol and port, and no other flow
/// changes; where there is none yet, one is opened behind the others.
pub proof fn a_record_joins_the_flow_of_its_sender_and_port(
    tracker: TrackerView,
    event: EventView,
    i: int,
)
    requires
        well_formed(tracker.flows),
        0 <= i < tracker.flows.len(),
    ensures
        ({
            let after = tracker.joined(event).flows;
            let own = tracker.flows[i].key.src == event.src && tracker.flows[i].key.proto
                == event.proto && tracker.flows[i].key.dport == event.dport;
            &&& own ==> after.len() == tracker.flows.len() && after[i].key == tracker.flows[i].key
                && after[i].state == tracker.flows[i].state.recorded(
                event,
                tracker.classified(event),
            )
            &&& !own ==> after[i] == tracker.flows[i]
            &&& after.len() <= tracker.flows.len() + 1
            &&& after.len() > tracker.flows.len() ==> after.last() == (FlowView {
                key: FlowKeyView { src: event.src, proto: event.proto, dport: event.dport },
                state: StateView::opened(event, tracker.classified(event)).counted(event),
            })
        }),
        tracker.joined(event).skipped == tracker.skipped,
        tracker.joined(event).selfblock == tracker.selfblock,
        tracker.joined(event).spoken == tracker.spoken,
{
    lemma_first_flow(tracker.flows, key_of(event), 0);
    let p = position(tracker.flows, key_of(event), 0);
    if p < tracker.flows.len() && p != i {
        assert(tracker.flows[p].key != tracker.flows[i].key);
    }
}

proof fn lemma_first_flow(flows: Seq<FlowView>, key: FlowKeyView, i: int)
    requires
        0 <= i <= flows.len(),
    ensures
        i <= position(flows, key, i) <= flows.len(),
        position(flows, key, i) < flows.len() ==> flows[position(flows, key, i)].key == key,
        forall|k: int| i <= k < position(flows, key, i) ==> (#[trigger] flows[k]).key != key,
    decreases flows.len() - i,
{
    if i < flows.len() && flows[i].key != key {
        lemma_first_flow(flows, key, i + 1);
    }
}

/// A flow that was taken for discovery replies stops being so at the first record
/// that is none, and it is told of exactly where it had been announced.
pub proof fn a_revoked_flow_is_told_of_where_it_was_announced(
    tracker: TrackerView,
    event: EventView,
)
    ensures
        ({
            let state = tracker.state_before(event);
            let revoked = state.discovery is Some && state.discovery != tracker.classified(event);
            let told = tracker.joined(event).notices;
            &&& revoked && state.announced ==> told == tracker.notices.push(
                NoticeView::Revoked {
                    src: event.src,
                    dport: event.dport,
                    protocol: state.discovery.unwrap(),
                },
            )
            &&& !revoked || !state.announced ==> told == tracker.notices
            &&& revoked ==> state.recorded(event, tracker.classified(event)).discovery is None
                && state.recorded(event, tracker.classified(event)).alerted_at is None
                && !state.recorded(event, tracker.classified(event)).announced
            &&& !revoked ==> state.recorded(event, tracker.classified(event)) == state.counted(
                event,
            )
        }),
{
    let told = tracker.joined(event).notices;
    let state = tracker.state_before(event);
    if state.discovery is Some && state.discovery != tracker.classified(event) && state.announced {
        assert(told =~= tracker.notices.push(
            NoticeView::Revoked {
                src: event.src,
                dport: event.dport,
                protocol: state.discovery.unwrap(),
            },
        ));
    } else {
        assert(told =~= tracker.notices);
    }
}

/// What was ignored is told by its four counts and their sum, and only where
/// something was.
pub proof fn what_was_ignored_is_told_by_its_counts(s: SkipCounts)
    ensures
        s.self_sourced == 0 && s.group_dest == 0 && s.ignored_port == 0 && s.discovery_reply == 0
            <==> s.described() is None,
        s.described() is Some ==> s.described().unwrap() == text::dec(
            (s.self_sourced + s.group_dest + s.ignored_port + s.discovery_reply) as nat,
        ) + " record(s) ignored: "@ + text::dec(s.self_sourced as nat) + " sent by this host, "@
            + text::dec(s.group_dest as nat)
            + " addressed to a multicast or broadcast group, "@ + text::dec(s.ignored_port as nat)
            + " on an ignored port, "@ + text::dec(s.discovery_reply as nat)
            + " answering this host's own discovery"@,
{
}

/// A notice says who it is about and what came to an end: replies under their
/// protocol, a blocked flow under its own and its port, with how long it lasted
/// and how much was dropped.
pub proof fn a_notice_says_what_came_to_an_end(
    label: Seq<char>,
    src: Seq<char>,
    proto: Seq<char>,
    dport: u16,
    protocol: Seq<char>,
    lasted: u64,
    total: u64,
)
    ensures
        ({
            let end = " stopped after "@ + alert::duration_text(lasted as nat) + " ("@ + text::dec(
                total as nat,
            ) + " drops logged)"@;
            let blocked = NoticeView::Ended {
                src,
                proto,
                dport,
                reported_as: None,
                lasted,
                total,
            };
            let replies = NoticeView::Ended {
                src,
                proto,
                dport,
                reported_as: Some(protocol),
                lasted,
                total,
            };
            let revoked = NoticeView::Revoked { src, dport, protocol };
            &&& blocked.line(label) == "blocked-flow-ended — "@ + label + " → "@ + text::lowercased(
                proto,
            ) + "/"@ + text::dec(dport as nat) + end
            &&& replies.line(label) == "discovery-reply-ended — "@ + label + " → "@ + protocol
                + " replies"@ + end
            &&& revoked.line(label) == "discovery-revoked — "@ + label + " → udp/"@ + text::dec(
                dport as nat,
            ) + " stopped looking like "@ + protocol + " replies; re-judging as a blocked flow"@
            &&& blocked.source() == src && replies.source() == src && revoked.source() == src
        }),
{
    let end = " stopped after "@ + alert::duration_text(lasted as nat) + " ("@ + text::dec(
        total as nat,
    ) + " drops logged)"@;
    let blocked = NoticeView::Ended { src, proto, dport, reported_as: None, lasted, total };
    let replies = NoticeView::Ended {
        src,
        proto,
        dport,
        reported_as: Some(protocol),
        lasted,
        total,
    };
    assert(blocked.line(label) =~= "blocked-flow-ended — "@ + label + " → "@ + text::lowercased(
        proto,
    ) + "/"@ + text::dec(dport as nat) + end);
    assert(replies.line(label) =~= "discovery-reply-ended — "@ + label + " → "@ + protocol
        + " replies"@ + end);
}

/// The facts on a flow are its own numbers, how long it has gone on, and what the
/// tables and the addresses say of its port and its sender.
pub proof fn the_facts_on_a_flow_are_its_own(
    flow: FlowView,
    now: i64,
    local: LocalView,
    tables: TablesView,
)
    ensures
        ({
            let f = flow.facts(now, local, tables);
            &&& f.src == flow.key.src
            &&& f.proto_lower == text::lowercased(flow.key.proto)
            &&& f.dport == flow.key.dport
            &&& f.sport == flow.state.sport
            &&& f.total == flow.state.total
            &&& f.bytes == flow.state.bytes
            &&& f.iface == flow.state.iface
            &&& f.dst == flow.state.dst
            &&& f.discovery == flow.state.discovery
            &&& now >= flow.state.first ==> f.duration == alert::duration_text(
                (now - flow.state.first) as nat,
            )
            &&& now < flow.state.first ==> f.duration == alert::duration_text(0)
            &&& f.listening <==> tables.in_use(flow.key.proto, flow.key.dport)
            &&& f.nearby <==> local.nearby(flow.key.src)
            &&& f.corroborated <==> flow.state.discovery is Some && !flow.state.dst_overflow && (
            forall|i: int|
                0 <= i < flow.state.dsts.len() ==> tables.solicited(
                    flow.key.proto,
                    flow.key.src,
                    flow.state.sport,
                    #[trigger] flow.state.dsts[i],
                    flow.key.dport,
                ))
        }),
{
}

proof fn lemma_nothing_to_prune(times: Seq<i64>, now: i64, window: i64)
    requires
        times.len() > 0 ==> now - times[0] <= window,
    ensures
        still_in_window(times, now, window) == times,
{
}

/// Times leave from the front once they are older than the window.
pub proof fn times_older_than_the_window_leave(times: Seq<i64>, t: i64, now: i64, window: i64)
    ensures
        now - t > window ==> still_in_window(seq![t] + times, now, window) == still_in_window(
            times,
            now,
            window,
        ),
        now - t <= window ==> still_in_window(seq![t] + times, now, window) == seq![t] + times,
        still_in_window(Seq::empty(), now, window) == Seq::<i64>::empty(),
{
    let all = seq![t] + times;
    assert(all[0] == t);
    assert(all.skip(1) =~= times);
}

/// A flow whose times are all within the window is due exactly where there are
/// enough of them, they span long enough, its last alert is a cooldown back, and
/// nobody spoke of its subject within the cooldown. Held back are then only
/// discovery replies of whose subject somebody did.
pub proof fn a_flow_is_due_when_it_is_sustained_and_cooled(
    flow: FlowView,
    config: ConfigView,
    now: i64,
    tables: TablesView,
    spoken: Seq<(SubjectView, i64)>,
)
    requires
        flow.state.times.len() > 0,
        config.block_window_secs <= 0x7fff_ffff_ffff_ffff,
        config.block_min_span_secs <= 0x7fff_ffff_ffff_ffff,
        config.cooldown_secs <= 0x7fff_ffff_ffff_ffff,
        now - flow.state.times[0] <= config.block_window_secs,
    ensures
        ({
            let ready = flow.state.times.len() >= config.block_min_events && flow.state.last
                - flow.state.times[0] >= config.block_min_span_secs && (flow.state.alerted_at
                is Some ==> now - flow.state.alerted_at.unwrap() >= config.cooldown_secs);
            let spoke = cooldown::held(spoken, flow.subject(tables), now, config.cooldown_secs);
            let judgement = flow.judgement(config, now, tables, spoken);
            &&& judgement is Due <==> ready && !spoke
            &&& judgement is HeldBack <==> ready && spoke && flow.state.discovery is Some
            &&& judgement is Quiet <==> !ready || (spoke && flow.state.discovery is None)
        }),
{
    lemma_nothing_to_prune(flow.state.times, now, config.block_window_secs as i64);
}

/// A flow without times in the window is finished once its last drop is older
/// than the window, and quiet until then.
pub proof fn a_flow_is_finished_once_its_last_drop_is_too_old(
    flow: FlowView,
    config: ConfigView,
    now: i64,
    tables: TablesView,
    spoken: Seq<(SubjectView, i64)>,
)
    requires
        flow.state.times.len() == 0,
        config.block_window_secs <= 0x7fff_ffff_ffff_ffff,
    ensures
        flow.judgement(config, now, tables, spoken) is Finished <==> now - flow.state.last
            > config.block_window_secs,
        flow.judgement(config, now, tables, spoken) is Quiet <==> now - flow.state.last
            <= config.block_window_secs,
{
    lemma_nothing_to_prune(flow.state.times, now, config.block_window_secs as i64);
}

/// A flow is spoken of by its sender, protocol and port; discovery replies by
/// their sender and protocol, apart by whether a socket vouches for them.
pub proof fn a_subject_is_a_flow_or_a_kind_of_reply(flow: FlowView, tables: TablesView)
    ensures
        flow.state.discovery is None ==> flow.subject(tables) == (SubjectView::Blocked {
            key: flow.key,
        }),
        flow.state.discovery is Some ==> flow.subject(tables) == (SubjectView::Reply {
            src: flow.key.src,
            protocol: flow.state.discovery.unwrap(),
            corroborated: flow.corroborated(tables),
        }),
{
}

/// A judgement leaves a flow's numbers alone. One that is due is noted as alerted
/// and announced, as what it was; one held back is noted as alerted only.
pub proof fn a_judgement_leaves_the_numbers_alone(
    flow: FlowView,
    config: ConfigView,
    now: i64,
)
    ensures
        ({
            let due = flow.after(Judgement::Due, config, now);
            let held = flow.after(Judgement::HeldBack, config, now);
            let quiet = flow.after(Judgement::Quiet, config, now);
            let times = still_in_window(
                flow.state.times,
                now,
                config.block_window_secs as i64,
            );
            &&& due.key == flow.key && held.key == flow.key && quiet.key == flow.key
            &&& quiet.state == (StateView { times, ..flow.state })
            &&& held.state == (StateView { times, alerted_at: Some(now), ..flow.state })
            &&& due.state == (StateView {
                times,
                alerted_at: Some(now),
                announced: true,
                alerted_as_discovery: flow.state.discovery,
                ..flow.state
            })
        }),
{
}

/// A flow says farewell exactly where it was announced, with how long it lasted
/// and how much was dropped.
pub proof fn only_an_announced_flow_says_farewell(flow: FlowView)
    requires
        flow.state.first <= flow.state.last,
    ensures
        !flow.state.announced ==> flow.farewell().len() == 0,
        flow.state.announced ==> flow.farewell() == seq![
            NoticeView::Ended {
                src: flow.key.src,
                proto: flow.key.proto,
                dport: flow.key.dport,
                reported_as: flow.state.alerted_as_discovery,
                lasted: (flow.state.last - flow.state.first) as u64,
                total: flow.state.total,
            },
        ],
{
}

/// A tracker starts with nothing seen, nothing skipped and nothing to tell.
pub proof fn a_tracker_starts_with_nothing(local: LocalView, range: EphemeralRange)
    ensures
        TrackerView::started(local, range).flows.len() == 0,
        TrackerView::started(local, range).notices.len() == 0,
        TrackerView::started(local, range).spoken.len() == 0,
        TrackerView::started(local, range).selfblock.flows.len() == 0,
        TrackerView::started(local, range).selfblock.spoken.len() == 0,
        TrackerView::started(local, range).skipped.described() is None,
        TrackerView::started(local, range).local == local,
        TrackerView::started(local, range).range == range,
{
}

/// A flow is active where a drop of it is still in the window; it is counted by
/// those drops.
pub proof fn an_active_flow_has_a_drop_in_the_window(flows: Seq<FlowView>, n: int)
    requires
        0 <= n < flows.len(),
    ensures
        active_upto(flows, 0).len() == 0,
        flows[n].state.times.len() == 0 ==> active_upto(flows, n + 1) == active_upto(flows, n),
        flows[n].state.times.len() > 0 ==> active_upto(flows, n + 1) == active_upto(flows, n).push(
            RecentView {
                src: flows[n].key.src,
                proto_lower: text::lowercased(flows[n].key.proto),
                dport: flows[n].key.dport,
                drops: flows[n].state.times.len(),
            },
        ),
{
}

/// The busiest flows come first, as many as are asked for and are active; there
/// are none to tell of where none is active.
pub proof fn the_busiest_flows_come_first(flows: Seq<FlowView>, limit: nat, i: int, j: int)
    requires
        active_upto(flows, flows.len() as int).len() <= usize::MAX,
        forall|k: int|
            0 <= k < active_upto(flows, flows.len() as int).len() ==> (#[trigger] active_upto(
                flows,
                flows.len() as int,
            )[k]).drops <= u64::MAX,
    ensures
        ({
            let active = active_upto(flows, flows.len() as int);
            let shown = busiest(flows, limit);
            &&& shown is None <==> active.len() == 0
            &&& shown is Some && limit <= active.len() ==> shown.unwrap().len() == limit
            &&& shown is Some && limit > active.len() ==> shown.unwrap().len() == active.len()
            &&& shown is Some && 0 <= i < j < shown.unwrap().len() ==> shown.unwrap()[i].drops
                >= shown.unwrap()[j].drops
            &&& shown is Some && 0 <= i < shown.unwrap().len() ==> active.contains(
                shown.unwrap()[i],
            )
        }),
{
    let active = active_upto(flows, flows.len() as int);
    let shown = busiest(flows, limit);
    let keys = drop_keys(active);
    order::an_order_ranks_every_position_once(keys);
    let ranks = order::order_of(keys);
    if shown is Some && 0 <= i < shown.unwrap().len() {
        assert(shown.unwrap()[i] == active[ranks[i] as int]);
        if i < j < shown.unwrap().len() {
            assert(order::comes_before(keys, ranks[i], ranks[j]));
            assert(shown.unwrap()[j] == active[ranks[j] as int]);
            assert(active[ranks[i] as int].drops <= u64::MAX);
            assert(active[ranks[j] as int].drops <= u64::MAX);
            assert(keys[ranks[i] as int] == -(active[ranks[i] as int].drops as int));
            assert(keys[ranks[j] as int] == -(active[ranks[j] as int].drops as int));
        }
    }
}

/// A busy flow is told of by its label, its protocol and port and its drops.
pub proof fn a_busy_flow_is_told_of_by_its_drops(r: RecentView, label: Seq<char>)
    ensures
        r.described(label) == label + " → "@ + r.proto_lower + "/"@ + text::dec(r.dport as nat)
            + " ("@ + text::dec(r.drops) + " drops)"@,
        summary_of(seq![r], seq![label]) == r.described(label),
        summary_of(Seq::empty(), Seq::empty()).len() == 0,
{
    let texts = Seq::new(1, |i: int| seq![r][i].described(seq![label][i]));
    assert(summary_of(seq![r], seq![label]) == text::join(texts, "; "@));
    assert(texts[0] == r.described(label));
    assert(texts.len() == 1);
}

/// Addresses are read again once they are a minute old, but not for a record whose
/// port is ignored.
pub proof fn addresses_are_wanted_for_records_that_count(
    tracker: TrackerView,
    event: EventView,
    config: ConfigView,
    now: i64,
)
    ensures
        config.ignore_ports.contains(event.dport) ==> !tracker.wants_addresses_for(
            event,
            config,
            now,
        ),
        !config.ignore_ports.contains(event.dport) ==> (tracker.wants_addresses_for(
            event,
            config,
            now,
        ) <==> now >= tracker.local.refreshed + 60),
{
}

/// A flow has room for a record exactly where neither of its counts overflows with
/// it.
pub proof fn a_flow_has_room_while_its_counts_do(state: StateView, len: u64)
    ensures
        state.has_room(len) <==> state.total + 1 <= u64::MAX && state.bytes + len <= u64::MAX,
{
}

/// A record is refused for want of room only where it would overflow a count that
/// it adds to.
pub proof fn a_record_is_refused_only_for_want_of_room(
    tracker: TrackerView,
    event: EventView,
    config: ConfigView,
)
    requires
        tracker.skipped.sum() < u64::MAX,
    ensures
        tracker.intake(event, config) is IgnoredPort ==> tracker.has_room(event, config),
        tracker.intake(event, config) is GroupDest ==> tracker.has_room(event, config),
        tracker.intake(event, config) is DiscoveryReply ==> tracker.has_room(event, config),
        tracker.intake(event, config) is Recorded && tracker.state_before(event).total + 1
            <= u64::MAX && tracker.state_before(event).bytes + event.len <= u64::MAX
            ==> tracker.has_room(event, config),
{
}

} // verus!
