//! Traffic this host sends that its own firewall drops.
//!
//! The blocked-flow detector asks who is transmitting into a port nothing is
//! listening on, and for these records the answer is that this host is. They
//! are still worth knowing about: they consume the log budget, they prove that
//! inbound replies are dropped too, and locally-sourced unicast on the input
//! path is a routing loop, a misconfigured tunnel or a spoofed source.
//!
//! The threshold counts distinct minutes with activity, not records. The
//! firewall limits its own logging, so a record count measures the limiter more
//! than the traffic; which minutes saw activity survives it.

use vstd::prelude::*;

use crate::alert;
use crate::alert::{fmt_bytes, fmt_duration, Alert, AlertView};
use crate::config::{Config, ConfigView};
use crate::cooldown;
use crate::cooldown::{is_cooled, Spoken};
use crate::drops::{BlockEvent, EventView};
use crate::order;
use crate::order::stable_order;
use crate::text;
use crate::text::{join_texts, push_dec, text_eq};

verus! {

// -- Data structures ----------------------------------------------------------

pub struct SelfKey {
    pub dst: String,
    pub proto: String,
    pub dport: u16,
}

pub struct SelfKeyView {
    pub dst: Seq<char>,
    pub proto: Seq<char>,
    pub dport: u16,
}

impl View for SelfKey {
    type V = SelfKeyView;

    open spec fn view(&self) -> SelfKeyView {
        SelfKeyView { dst: self.dst@, proto: self.proto@, dport: self.dport }
    }
}

impl cooldown::Subject for SelfKey {
    fn is(&self, other: &Self) -> (b: bool) {
        text_eq(self.dst.as_str(), other.dst.as_str()) && text_eq(
            self.proto.as_str(),
            other.proto.as_str(),
        ) && self.dport == other.dport
    }
}

/// One destination this host's traffic is dropped on the way to.
pub struct SelfFlow {
    pub key: SelfKey,
    /// Minutes inside the window that saw at least one drop, each once.
    pub minutes: Vec<i64>,
    pub total: u64,
    pub bytes: u64,
    pub first: i64,
    pub last: i64,
    pub iface: String,
    /// Destination was a single host rather than a group: the shape that cannot
    /// be explained by ordinary multicast loopback.
    pub unicast: bool,
    pub alerted_at: Option<i64>,
}

pub struct SelfFlowView {
    pub key: SelfKeyView,
    pub minutes: Seq<i64>,
    pub total: u64,
    pub bytes: u64,
    pub first: i64,
    pub last: i64,
    pub iface: Seq<char>,
    pub unicast: bool,
    pub alerted_at: Option<i64>,
}

impl View for SelfFlow {
    type V = SelfFlowView;

    open spec fn view(&self) -> SelfFlowView {
        SelfFlowView {
            key: self.key@,
            minutes: self.minutes@,
            total: self.total,
            bytes: self.bytes,
            first: self.first,
            last: self.last,
            iface: self.iface@,
            unicast: self.unicast,
            alerted_at: self.alerted_at,
        }
    }
}

pub open spec fn flows_view(v: Seq<SelfFlow>) -> Seq<SelfFlowView> {
    v.map_values(|f: SelfFlow| f@)
}

pub struct SelfBlockTracker {
    pub flows: Vec<SelfFlow>,
    /// When each destination last raised an alert, forgotten or not.
    pub spoken: Spoken<SelfKey>,
}

pub struct SelfView {
    pub flows: Seq<SelfFlowView>,
    pub spoken: Seq<(SelfKeyView, i64)>,
}

impl View for SelfBlockTracker {
    type V = SelfView;

    open spec fn view(&self) -> SelfView {
        SelfView { flows: flows_view(self.flows@), spoken: self.spoken@ }
    }
}

/// Every destination stands once, and every minute in it once.
pub open spec fn well_formed(flows: Seq<SelfFlowView>) -> bool {
    &&& forall|i: int, j: int|
        0 <= i < j < flows.len() ==> (#[trigger] flows[i]).key != (#[trigger] flows[j]).key
    &&& forall|i: int| 0 <= i < flows.len() ==> (#[trigger] flows[i]).minutes.no_duplicates()
}

// -- Recording ----------------------------------------------------------------

impl SelfFlowView {
    /// A destination of which nothing has been counted yet.
    pub open spec fn opened(event: EventView, unicast: bool) -> SelfFlowView {
        SelfFlowView {
            key: SelfKeyView { dst: event.dst, proto: event.proto, dport: event.dport },
            minutes: Seq::empty(),
            total: 0,
            bytes: 0,
            first: event.ts,
            last: event.ts,
            iface: event.iface,
            unicast,
            alerted_at: None,
        }
    }

    /// One more drop. A destination that ever carries unicast keeps that
    /// classification: the interesting case must not be masked by later
    /// multicast.
    pub open spec fn counted(self, event: EventView, unicast: bool) -> SelfFlowView {
        let minute = (event.ts as int / 60) as i64;
        SelfFlowView {
            minutes: if self.minutes.contains(minute) {
                self.minutes
            } else {
                self.minutes.push(minute)
            },
            total: (self.total + 1) as u64,
            bytes: (self.bytes + event.len) as u64,
            last: event.ts,
            iface: event.iface,
            unicast: self.unicast || unicast,
            ..self
        }
    }

    /// The counters can take one more drop of this length.
    pub open spec fn has_room(self, len: u64) -> bool {
        self.total < u64::MAX && self.bytes + len <= u64::MAX
    }
}

/// Where a destination stands from position `i` on; the length where it does not.
pub open spec fn position(flows: Seq<SelfFlowView>, key: SelfKeyView, i: int) -> int
    decreases flows.len() - i,
{
    if i < 0 || i >= flows.len() {
        flows.len() as int
    } else if flows[i].key == key {
        i
    } else {
        position(flows, key, i + 1)
    }
}

proof fn lemma_position(flows: Seq<SelfFlowView>, key: SelfKeyView, i: int)
    requires
        0 <= i <= flows.len(),
    ensures
        i <= position(flows, key, i) <= flows.len(),
        position(flows, key, i) < flows.len() ==> flows[position(flows, key, i)].key == key,
        position(flows, key, i) == flows.len() ==> forall|k: int|
            i <= k < flows.len() ==> (#[trigger] flows[k]).key != key,
    decreases flows.len() - i,
{
    if i < flows.len() && flows[i].key != key {
        lemma_position(flows, key, i + 1);
    }
}

pub open spec fn key_of(event: EventView) -> SelfKeyView {
    SelfKeyView { dst: event.dst, proto: event.proto, dport: event.dport }
}

/// The destinations after one more drop.
pub open spec fn recorded(flows: Seq<SelfFlowView>, event: EventView, unicast: bool) -> Seq<
    SelfFlowView,
> {
    let p = position(flows, key_of(event), 0);
    if p < flows.len() {
        flows.update(p, flows[p].counted(event, unicast))
    } else {
        flows.push(SelfFlowView::opened(event, unicast).counted(event, unicast))
    }
}

impl SelfView {
    /// A tracker that has seen nothing.
    pub open spec fn started() -> SelfView {
        SelfView { flows: Seq::empty(), spoken: Seq::empty() }
    }

    /// The tracker after one more drop.
    pub open spec fn recorded(self, event: EventView, unicast: bool) -> SelfView {
        SelfView { flows: recorded(self.flows, event, unicast), ..self }
    }
}

/// The counters of the event's destination can take it.
pub open spec fn room_for(flows: Seq<SelfFlowView>, event: EventView) -> bool {
    let p = position(flows, key_of(event), 0);
    p < flows.len() ==> flows[p].has_room(event.len)
}

fn minute_of(ts: i64) -> (out: i64)
    ensures
        out == ts as int / 60,
{
    if ts >= 0 {
        (ts as u64 / 60) as i64
    } else {
        let up: u64 = ((59 - ts as i128) as u128 / 60) as u64;
        (-(up as i128)) as i64
    }
}

fn contains_minute(minutes: &Vec<i64>, minute: i64) -> (b: bool)
    ensures
        b == minutes@.contains(minute),
{
    let mut i: usize = 0;
    while i < minutes.len()
        invariant
            i <= minutes.len(),
            forall|k: int| 0 <= k < i ==> minutes@[k] != minute,
        decreases minutes.len() - i,
    {
        if minutes[i] == minute {
            return true;
        }
        i = i + 1;
    }
    false
}

impl SelfFlow {
    fn count(&mut self, event: &BlockEvent, unicast: bool)
        requires
            old(self)@.has_room(event.len),
        ensures
            final(self)@ == old(self)@.counted(event@, unicast),
    {
        let minute: i64 = minute_of(event.ts);
        if !contains_minute(&self.minutes, minute) {
            self.minutes.push(minute);
        }
        self.total = self.total + 1;
        self.bytes = self.bytes + event.len;
        self.last = event.ts;
        self.iface = event.iface.clone();
        self.unicast = self.unicast || unicast;
    }
}

impl SelfBlockTracker {
    pub open spec fn wf(self) -> bool {
        well_formed(self@.flows)
    }

    pub fn new() -> (out: SelfBlockTracker)
        ensures
            out.wf(),
            out@ == SelfView::started(),
    {
        let out = SelfBlockTracker { flows: Vec::new(), spoken: Spoken::new() };
        assert(out@.flows =~= Seq::<SelfFlowView>::empty());
        out
    }

    fn find(&self, event: &BlockEvent) -> (out: Option<usize>)
        ensures
            match out {
                Some(p) => p == position(self@.flows, key_of(event@), 0) && p < self.flows@.len(),
                None => position(self@.flows, key_of(event@), 0) == self.flows@.len(),
            },
    {
        let ghost all = self@.flows;
        let mut i: usize = 0;
        while i < self.flows.len()
            invariant
                i <= self.flows.len(),
                all == self@.flows,
                position(all, key_of(event@), 0) == position(all, key_of(event@), i as int),
            decreases self.flows.len() - i,
        {
            assert(all[i as int] == self.flows@[i as int]@);
            let key = &self.flows[i].key;
            if text_eq(key.dst.as_str(), event.dst.as_str()) && text_eq(
                key.proto.as_str(),
                event.proto.as_str(),
            ) && key.dport == event.dport {
                return Some(i);
            }
            i = i + 1;
        }
        None
    }

    /// Can the counters take this event? A tracker that has counted for longer
    /// than a machine can count says no.
    pub fn has_room(&self, event: &BlockEvent) -> (b: bool)
        ensures
            b == room_for(self@.flows, event@),
    {
        match self.find(event) {
            None => true,
            Some(p) => {
                assert(self@.flows[p as int] == self.flows@[p as int]@);
                self.flows[p].total < u64::MAX && self.flows[p].bytes <= u64::MAX - event.len
            },
        }
    }

    /// Fold a drop of this host's own traffic into its destination.
    pub fn record(&mut self, event: &BlockEvent, unicast: bool)
        requires
            old(self).wf(),
            room_for(old(self)@.flows, event@),
        ensures
            final(self).wf(),
            final(self)@ == old(self)@.recorded(event@, unicast),
    {
        let ghost before = self@.flows;
        proof {
            lemma_position(before, key_of(event@), 0);
        }
        match self.find(event) {
            Some(p) => {
                assert(before[p as int] == self.flows@[p as int]@);
                self.flows[p].count(event, unicast);
                assert(self@.flows =~= recorded(before, event@, unicast));
            },
            None => {
                let mut flow = SelfFlow {
                    key: SelfKey {
                        dst: event.dst.clone(),
                        proto: event.proto.clone(),
                        dport: event.dport,
                    },
                    minutes: Vec::new(),
                    total: 0,
                    bytes: 0,
                    first: event.ts,
                    last: event.ts,
                    iface: event.iface.clone(),
                    unicast,
                    alerted_at: None,
                };
                assert(flow@.minutes =~= Seq::<i64>::empty());
                flow.count(event, unicast);
                self.flows.push(flow);
                assert(self@.flows =~= recorded(before, event@, unicast));
            },
        }
        proof {
            lemma_recorded_well_formed(before, event@, unicast);
        }
    }
}

proof fn lemma_recorded_well_formed(flows: Seq<SelfFlowView>, event: EventView, unicast: bool)
    requires
        well_formed(flows),
    ensures
        well_formed(recorded(flows, event, unicast)),
{
    let after = recorded(flows, event, unicast);
    let p = position(flows, key_of(event), 0);
    lemma_position(flows, key_of(event), 0);
    assert forall|i: int, j: int| 0 <= i < j < after.len() implies (#[trigger] after[i]).key != (
    #[trigger] after[j]).key by {
        if j < flows.len() {
            assert(flows[i].key != flows[j].key);
        } else {
            assert(flows[i].key != key_of(event));
        }
    }
    assert forall|i: int| 0 <= i < after.len() implies (
    #[trigger] after[i]).minutes.no_duplicates() by {
        if i < flows.len() {
            assert(flows[i].minutes.no_duplicates());
        }
    }
}

// -- Judging ------------------------------------------------------------------

/// The minutes without the leading ones that have left the window.
pub open spec fn still_in_window(minutes: Seq<i64>, now: i64, window: i64) -> Seq<i64>
    decreases minutes.len(),
{
    if minutes.len() > 0 && now - minutes[0] * 60 > window {
        still_in_window(minutes.skip(1), now, window)
    } else {
        minutes
    }
}

impl SelfFlowView {
    pub open spec fn pruned(self, config: ConfigView, now: i64) -> SelfFlowView {
        SelfFlowView {
            minutes: still_in_window(self.minutes, now, config.self_window_secs as i64),
            ..self
        }
    }

    /// Unicast has no benign explanation and needs only a few records; a group
    /// destination has to be active in enough distinct minutes.
    pub open spec fn due(self, config: ConfigView) -> bool {
        if self.unicast {
            self.total >= config.self_unicast_min_events
        } else {
            self.minutes.len() >= config.self_min_active_minutes
        }
    }

    /// An alert is owed at this time.
    pub open spec fn alerts(
        self,
        config: ConfigView,
        now: i64,
        spoken: Seq<(SelfKeyView, i64)>,
    ) -> bool {
        let flow = self.pruned(config, now);
        &&& flow.minutes.len() > 0
        &&& flow.due(config)
        &&& cooldown::cooled(flow.alerted_at, now, config.cooldown_secs)
        &&& !cooldown::held(spoken, flow.key, now, config.cooldown_secs)
    }

    /// What is left of the destination after judging it; nothing where no
    /// minute of its activity lies in the window.
    pub open spec fn judged(
        self,
        config: ConfigView,
        now: i64,
        spoken: Seq<(SelfKeyView, i64)>,
    ) -> Option<SelfFlowView> {
        let flow = self.pruned(config, now);
        if flow.minutes.len() == 0 {
            None
        } else if self.alerts(config, now, spoken) {
            Some(SelfFlowView { alerted_at: Some(now), ..flow })
        } else {
            Some(flow)
        }
    }

    /// How long the drops have gone on.
    pub open spec fn age(self, now: i64) -> nat {
        if now >= self.first {
            (now - self.first) as nat
        } else {
            0
        }
    }

    /// The alert about this destination.
    pub open spec fn alert(self, config: ConfigView, now: i64) -> AlertView {
        let proto = text::lowercased(self.key.proto);
        let port = text::dec(self.key.dport as nat);
        let total = text::dec(self.total as nat);
        let bytes = alert::bytes_text(self.bytes as nat);
        AlertView {
            kind: "self-blocked"@,
            key: "self-"@ + self.key.dst + "-"@ + proto + "-"@ + port,
            title: if self.unicast {
                "This host is sending blocked traffic to "@ + self.key.dst
            } else {
                "This host's own "@ + proto + "/"@ + port + " traffic is blocked"@
            },
            body: if self.unicast {
                total + " drops over "@ + alert::duration_text(self.age(now)) + " on "@ + self.iface
                    + ", to "@ + proto + "/"@ + port
                    + ".\nAddressed to one host rather than to a group."@
            } else {
                "Active in "@ + text::dec(self.minutes.len()) + " of the last "@ + text::dec(
                    (config.self_window_secs / 60) as nat,
                ) + " minutes on "@ + self.iface
                    + ".\nThe firewall is dropping multicast this host sends to "@ + self.key.dst
                    + "."@
            },
            detail: if self.unicast {
                bytes
                    + " logged. Traffic this host sent should not be arriving on its own input path unless something is looping it back: a routing loop, a misconfigured tunnel, or a spoofed source address."@
            } else {
                total + " drops, "@ + bytes
                    + ". Nothing external is involved — allow it, or stop whatever keeps sending it. Inbound replies to "@
                    + proto + "/"@ + port + " take the same path, so they are being dropped too."@
            },
            urgency: if self.unicast {
                "critical"@
            } else {
                "normal"@
            },
            popup: true,
        }
    }
}

/// A sweep over the destinations, some way through.
pub struct SelfSweep {
    pub flows: Seq<SelfFlowView>,
    pub spoken: Seq<(SelfKeyView, i64)>,
    pub alerts: Seq<AlertView>,
}

impl SelfSweep {
    /// The sweep after one more destination. One of which no minute lies in the
    /// window any more is forgotten, but not when it last spoke.
    pub open spec fn judge(self, flow: SelfFlowView, config: ConfigView, now: i64) -> SelfSweep {
        match flow.judged(config, now, self.spoken) {
            None => self,
            Some(left) => if flow.alerts(config, now, self.spoken) {
                SelfSweep {
                    flows: self.flows.push(left),
                    spoken: cooldown::noted(self.spoken, flow.key, now, 0),
                    alerts: self.alerts.push(left.alert(config, now)),
                }
            } else {
                SelfSweep { flows: self.flows.push(left), ..self }
            },
        }
    }
}

impl SelfView {
    /// The sweep over the first `n` destinations.
    pub open spec fn swept(self, config: ConfigView, now: i64, n: int) -> SelfSweep
        decreases n,
    {
        if n <= 0 {
            SelfSweep { flows: Seq::empty(), spoken: self.spoken, alerts: Seq::empty() }
        } else {
            self.swept(config, now, n - 1).judge(self.flows[n - 1], config, now)
        }
    }

    /// The alerts that are owed at this time.
    pub open spec fn raised(self, config: ConfigView, now: i64) -> Seq<AlertView> {
        self.swept(config, now, self.flows.len() as int).alerts
    }

    /// The tracker after a tick.
    pub open spec fn ticked(self, config: ConfigView, now: i64) -> SelfView {
        let sweep = self.swept(config, now, self.flows.len() as int);
        SelfView {
            flows: sweep.flows,
            spoken: cooldown::still_holding(
                sweep.spoken,
                now,
                config.cooldown_secs,
                sweep.spoken.len() as int,
            ),
        }
    }
}

fn prune(minutes: &mut Vec<i64>, now: i64, window: i64)
    ensures
        final(minutes)@ == still_in_window(old(minutes)@, now, window),
{
    let ghost goal = still_in_window(minutes@, now, window);
    while minutes.len() > 0 && (now as i128) - (minutes[0] as i128) * 60 > window as i128
        invariant
            still_in_window(minutes@, now, window) == goal,
        decreases minutes.len(),
    {
        let ghost before = minutes@;
        let _ = minutes.remove(0);
        assert(minutes@ =~= before.skip(1));
    }
}

fn age_of(first: i64, now: i64) -> (out: u64)
    ensures
        out == if now >= first {
            now - first
        } else {
            0
        },
{
    if now >= first {
        ((now as i128) - (first as i128)) as u64
    } else {
        0
    }
}

fn build_alert(flow: &SelfFlow, cfg: &Config, now: i64) -> (out: Alert)
    ensures
        out@ == flow@.alert(cfg@, now),
{
    let proto = flow.key.proto.as_str().to_lowercase();
    let mut key: String = "self-".to_owned();
    key.append(flow.key.dst.as_str());
    key.append("-");
    key.append(proto.as_str());
    key.append("-");
    push_dec(&mut key, flow.key.dport as u64);

    let mut title: String;
    let mut body: String = String::new();
    let mut detail: String = String::new();
    let urgency: &'static str;
    if flow.unicast {
        title = "This host is sending blocked traffic to ".to_owned();
        title.append(flow.key.dst.as_str());

        push_dec(&mut body, flow.total);
        body.append(" drops over ");
        body.append(fmt_duration(age_of(flow.first, now)).as_str());
        body.append(" on ");
        body.append(flow.iface.as_str());
        body.append(", to ");
        body.append(proto.as_str());
        body.append("/");
        push_dec(&mut body, flow.key.dport as u64);
        body.append(".\nAddressed to one host rather than to a group.");

        detail.append(fmt_bytes(flow.bytes).as_str());
        detail.append(
            " logged. Traffic this host sent should not be arriving on its own input path unless something is looping it back: a routing loop, a misconfigured tunnel, or a spoofed source address.",
        );
        urgency = "critical";
    } else {
        title = "This host's own ".to_owned();
        title.append(proto.as_str());
        title.append("/");
        push_dec(&mut title, flow.key.dport as u64);
        title.append(" traffic is blocked");

        body.append("Active in ");
        push_dec(&mut body, flow.minutes.len() as u64);
        body.append(" of the last ");
        push_dec(&mut body, cfg.self_window_secs / 60);
        body.append(" minutes on ");
        body.append(flow.iface.as_str());
        body.append(".\nThe firewall is dropping multicast this host sends to ");
        body.append(flow.key.dst.as_str());
        body.append(".");

        push_dec(&mut detail, flow.total);
        detail.append(" drops, ");
        detail.append(fmt_bytes(flow.bytes).as_str());
        detail.append(
            ". Nothing external is involved — allow it, or stop whatever keeps sending it. Inbound replies to ",
        );
        detail.append(proto.as_str());
        detail.append("/");
        push_dec(&mut detail, flow.key.dport as u64);
        detail.append(" take the same path, so they are being dropped too.");
        urgency = "normal";
    }
    let out = Alert { kind: "self-blocked", key, title, body, detail, urgency, popup: true };
    assert(out@.body =~= flow@.alert(cfg@, now).body);
    assert(out@.detail =~= flow@.alert(cfg@, now).detail);
    out
}

impl SelfFlow {
    /// Judge this destination. Returns whether it is still of interest.
    fn judge(
        &mut self,
        cfg: &Config,
        now: i64,
        spoken: &mut Spoken<SelfKey>,
        alerts: &mut Vec<Alert>,
    ) -> (keep: bool)
        ensures
            ({
                let before = SelfSweep {
                    flows: Seq::empty(),
                    spoken: old(spoken)@,
                    alerts: alert::alerts_of(old(alerts)@),
                };
                let after = before.judge(old(self)@, cfg@, now);
                &&& after.spoken == final(spoken)@
                &&& after.alerts == alert::alerts_of(final(alerts)@)
                &&& keep == old(self)@.judged(cfg@, now, old(spoken)@) is Some
                &&& keep ==> Some(final(self)@) == old(self)@.judged(cfg@, now, old(spoken)@)
            }),
    {
        let ghost said = alert::alerts_of(alerts@);
        prune(&mut self.minutes, now, cfg.self_window_secs as i64);
        let ghost left = old(self)@.pruned(cfg@, now);
        assert(self@ == left);
        if self.minutes.len() == 0 {
            return false;
        }
        let due: bool = if self.unicast {
            self.total >= cfg.self_unicast_min_events
        } else {
            self.minutes.len() >= cfg.self_min_active_minutes
        };
        if !due || !is_cooled(self.alerted_at, now, cfg.cooldown_secs) || spoken.holds(
            &self.key,
            now,
            cfg.cooldown_secs,
        ) {
            return true;
        }
        let key = SelfKey {
            dst: self.key.dst.clone(),
            proto: self.key.proto.clone(),
            dport: self.key.dport,
        };
        spoken.note(key, now);
        self.alerted_at = Some(now);
        let alert = build_alert(self, cfg, now);
        alerts.push(alert);
        assert(alert::alerts_of(alerts@) =~= said.push(alert@));
        true
    }
}

proof fn lemma_window_keeps_order(minutes: Seq<i64>, now: i64, window: i64)
    ensures
        minutes.no_duplicates() ==> still_in_window(minutes, now, window).no_duplicates(),
    decreases minutes.len(),
{
    if minutes.len() > 0 && now - minutes[0] * 60 > window {
        lemma_window_keeps_order(minutes.skip(1), now, window);
    }
}

proof fn lemma_swept(tracker: SelfView, config: ConfigView, now: i64, n: int)
    requires
        well_formed(tracker.flows),
        0 <= n <= tracker.flows.len(),
    ensures
        well_formed(tracker.swept(config, now, n).flows),
        tracker.swept(config, now, n).flows.len() <= n,
        forall|k: int|
            0 <= k < tracker.swept(config, now, n).flows.len() ==> exists|i: int|
                0 <= i < n && (#[trigger] tracker.swept(config, now, n).flows[k]).key == (
                #[trigger] tracker.flows[i]).key,
    decreases n,
{
    if n > 0 {
        lemma_swept(tracker, config, now, n - 1);
        let flows = tracker.flows;
        let before = tracker.swept(config, now, n - 1).flows;
        let after = tracker.swept(config, now, n).flows;
        lemma_window_keeps_order(
            flows[n - 1].minutes,
            now,
            config.self_window_secs as i64,
        );
        assert forall|k: int| 0 <= k < after.len() implies exists|i: int|
            0 <= i < n && (#[trigger] after[k]).key == (#[trigger] flows[i]).key by {
            if k < before.len() {
                let i = choose|i: int| 0 <= i < n - 1 && before[k].key == (#[trigger] flows[i]).key;
                assert(after[k].key == flows[i].key);
            } else {
                assert(after[k].key == flows[n - 1].key);
            }
        }
        assert forall|i: int, j: int| 0 <= i < j < after.len() implies (
        #[trigger] after[i]).key != (#[trigger] after[j]).key by {
            if j < before.len() {
                assert(before[i].key != before[j].key);
            } else {
                let k = choose|k: int| 0 <= k < n - 1 && before[i].key == (#[trigger] flows[k]).key;
                assert(flows[k].key != flows[n - 1].key);
            }
        }
        assert forall|i: int| 0 <= i < after.len() implies (
        #[trigger] after[i]).minutes.no_duplicates() by {
            if i < before.len() {
                assert(before[i].minutes.no_duplicates());
            } else {
                assert(flows[n - 1].minutes.no_duplicates());
            }
        }
    }
}

impl SelfBlockTracker {
    /// Evaluate every destination as of `now`, and return the alerts that became
    /// due.
    pub fn tick_at(&mut self, cfg: &Config, now: i64) -> (alerts: Vec<Alert>)
        requires
            old(self).wf(),
        ensures
            final(self).wf(),
            final(self)@ == old(self)@.ticked(cfg@, now),
            alert::alerts_of(alerts@) == old(self)@.raised(cfg@, now),
    {
        let ghost before = self@;
        let ghost mut n: int = 0;
        let mut alerts: Vec<Alert> = Vec::new();
        let mut i: usize = 0;
        assert(alert::alerts_of(alerts@) =~= Seq::<AlertView>::empty());
        assert(self@.flows =~= before.swept(cfg@, now, 0).flows + before.flows.skip(0));
        while i < self.flows.len()
            invariant
                before == old(self)@,
                well_formed(before.flows),
                0 <= n <= before.flows.len(),
                i <= self.flows.len(),
                i == before.swept(cfg@, now, n).flows.len(),
                self@.flows == before.swept(cfg@, now, n).flows + before.flows.skip(n),
                self.spoken@ == before.swept(cfg@, now, n).spoken,
                alert::alerts_of(alerts@) == before.swept(cfg@, now, n).alerts,
            decreases self.flows.len() - i,
        {
            let ghost so_far = self@.flows;
            let ghost sweep = before.swept(cfg@, now, n);
            let ghost next = before.swept(cfg@, now, n + 1);
            assert(so_far.len() == self.flows@.len());
            assert(so_far[i as int] == self.flows@[i as int]@);
            assert(so_far[i as int] == before.flows[n]);
            let keep = self.flows[i].judge(cfg, now, &mut self.spoken, &mut alerts);
            if keep {
                let ghost judged = self.flows@[i as int]@;
                assert(self@.flows =~= so_far.update(i as int, judged));
                assert(next.flows =~= sweep.flows.push(judged));
                i = i + 1;
            } else {
                let _ = self.flows.remove(i);
                assert(self@.flows =~= so_far.remove(i as int));
                assert(next.flows =~= sweep.flows);
            }
            proof {
                n = n + 1;
            }
            assert(self@.flows =~= next.flows + before.flows.skip(n));
        }
        proof {
            assert(self@.flows.len() == self.flows@.len());
            assert(n == before.flows.len());
            assert(self@.flows =~= before.swept(cfg@, now, n).flows);
            lemma_swept(before, cfg@, now, n);
        }
        self.spoken.expire(now, cfg.cooldown_secs);
        alerts
    }
}

// -- Describing ---------------------------------------------------------------

impl SelfFlowView {
    pub open spec fn described(self) -> Seq<char> {
        self.key.dst + " → "@ + text::lowercased(self.key.proto) + "/"@ + text::dec(
            self.key.dport as nat,
        ) + " ("@ + text::dec(self.total as nat) + " drops in "@ + text::dec(self.minutes.len())
            + " active minute(s))"@
    }
}

/// Most active minutes first.
pub open spec fn activity_keys(flows: Seq<SelfFlowView>) -> Seq<i128> {
    flows.map_values(|f: SelfFlowView| (-(f.minutes.len() as int)) as i128)
}

/// One line describing everything currently being dropped, the most active
/// destination first; none where there is nothing.
pub open spec fn summary_of(flows: Seq<SelfFlowView>) -> Option<Seq<char>> {
    if flows.len() == 0 {
        None
    } else {
        Some(
            text::join(
                order::order_of(activity_keys(flows)).map_values(
                    |i: usize| flows[i as int].described(),
                ),
                "; "@,
            ),
        )
    }
}

fn describe(flow: &SelfFlow) -> (out: String)
    ensures
        out@ == flow@.described(),
{
    let mut out: String = flow.key.dst.clone();
    out.append(" → ");
    out.append(flow.key.proto.as_str().to_lowercase().as_str());
    out.append("/");
    push_dec(&mut out, flow.key.dport as u64);
    out.append(" (");
    push_dec(&mut out, flow.total);
    out.append(" drops in ");
    push_dec(&mut out, flow.minutes.len() as u64);
    out.append(" active minute(s))");
    out
}

impl SelfBlockTracker {
    /// One line describing everything currently being dropped, for the periodic
    /// log entry. This is what keeps sub-threshold traffic visible instead of
    /// merely filtered.
    pub fn summary(&self) -> (out: Option<String>)
        ensures
            match out {
                Some(s) => summary_of(self@.flows) == Some(s@),
                None => summary_of(self@.flows) is None,
            },
    {
        assert(self@.flows.len() == self.flows@.len());
        if self.flows.len() == 0 {
            return None;
        }
        let mut keys: Vec<i128> = Vec::new();
        let mut i: usize = 0;
        while i < self.flows.len()
            invariant
                i <= self.flows.len(),
                keys.len() == i,
                forall|k: int| 0 <= k < i ==> #[trigger] keys@[k] == activity_keys(self@.flows)[k],
            decreases self.flows.len() - i,
        {
            assert(self@.flows[i as int] == self.flows@[i as int]@);
            keys.push(-(self.flows[i].minutes.len() as i128));
            i = i + 1;
        }
        assert(keys@ =~= activity_keys(self@.flows));
        let order = stable_order(&keys);
        let mut parts: Vec<String> = Vec::new();
        let mut j: usize = 0;
        while j < order.len()
            invariant
                j <= order.len(),
                order@.len() == self.flows@.len(),
                forall|k: int|
                    0 <= k < order@.len() ==> (#[trigger] order@[k]) < self.flows@.len(),
                parts.len() == j,
                forall|k: int|
                    0 <= k < j ==> (#[trigger] parts@[k])@
                        == self@.flows[order@[k] as int].described(),
            decreases order.len() - j,
        {
            assert(self@.flows[order@[j as int] as int] == self.flows@[order@[j as int] as int]@);
            parts.push(describe(&self.flows[order[j]]));
            j = j + 1;
        }
        assert(text::texts(parts@) =~= order@.map_values(
            |i: usize| self@.flows[i as int].described(),
        ));
        Some(join_texts(&parts, "; "))
    }
}

// -- Laws ---------------------------------------------------------------------

/// However many drops one minute sees, it counts once: what the threshold
/// measures is distinct minutes, which a log limiter cannot change.
pub proof fn a_minute_counts_once(flow: SelfFlowView, event: EventView, again: EventView, u: bool)
    requires
        event.ts as int / 60 == again.ts as int / 60,
    ensures
        flow.counted(event, u).counted(again, u).minutes == flow.counted(event, u).minutes,
{
    let minute = (event.ts as int / 60) as i64;
    let after = flow.counted(event, u).minutes;
    if !flow.minutes.contains(minute) {
        assert(after[after.len() - 1] == minute);
    }
}

/// Unicast, once seen, stays: no later record makes the destination look like a
/// group again.
pub proof fn unicast_is_never_unseen(flow: SelfFlowView, event: EventView, unicast: bool)
    requires
        flow.unicast,
    ensures
        flow.counted(event, unicast).unicast,
{
}

proof fn lemma_window_shrinks(minutes: Seq<i64>, now: i64, window: i64)
    ensures
        still_in_window(minutes, now, window).len() <= minutes.len(),
    decreases minutes.len(),
{
    if minutes.len() > 0 && now - minutes[0] * 60 > window {
        lemma_window_shrinks(minutes.skip(1), now, window);
    }
}

/// Group traffic that is active in too few minutes stays quiet, however many
/// drops were counted.
pub proof fn sparse_chatter_stays_quiet(
    flow: SelfFlowView,
    config: ConfigView,
    now: i64,
    spoken: Seq<(SelfKeyView, i64)>,
)
    requires
        !flow.unicast,
        flow.minutes.len() < config.self_min_active_minutes,
    ensures
        !flow.alerts(config, now, spoken),
{
    lemma_window_shrinks(flow.minutes, now, config.self_window_secs as i64);
}

/// Unicast skips the threshold: enough drops of it alert, however few minutes
/// they fell into, and they do so loudly.
pub proof fn unicast_needs_no_minutes(
    flow: SelfFlowView,
    config: ConfigView,
    now: i64,
    spoken: Seq<(SelfKeyView, i64)>,
)
    requires
        flow.unicast,
        flow.total >= config.self_unicast_min_events,
        flow.pruned(config, now).minutes.len() > 0,
        cooldown::cooled(flow.alerted_at, now, config.cooldown_secs),
        !cooldown::held(spoken, flow.key, now, config.cooldown_secs),
    ensures
        flow.alerts(config, now, spoken),
        flow.pruned(config, now).alert(config, now).urgency == "critical"@,
{
}

/// Traffic below the threshold is still visible: once a drop was counted, there
/// is something to describe.
pub proof fn every_counted_drop_is_described(
    flows: Seq<SelfFlowView>,
    event: EventView,
    unicast: bool,
)
    ensures
        summary_of(recorded(flows, event, unicast)) is Some,
{
    lemma_position(flows, key_of(event), 0);
}

proof fn lemma_all_old(minutes: Seq<i64>, now: i64, window: i64)
    requires
        forall|i: int| 0 <= i < minutes.len() ==> now - (#[trigger] minutes[i]) * 60 > window,
    ensures
        still_in_window(minutes, now, window).len() == 0,
    decreases minutes.len(),
{
    if minutes.len() > 0 {
        assert(now - minutes[0] * 60 > window);
        assert forall|i: int| 0 <= i < minutes.skip(1).len() implies now - (
        #[trigger] minutes.skip(1)[i]) * 60 > window by {
            assert(now - minutes[i + 1] * 60 > window);
        }
        lemma_all_old(minutes.skip(1), now, window);
    }
}

/// A destination that has been quiet for longer than the window is forgotten,
/// and says nothing on the way out.
pub proof fn a_flow_that_stops_is_forgotten(
    flow: SelfFlowView,
    config: ConfigView,
    now: i64,
    sweep: SelfSweep,
)
    requires
        forall|i: int|
            0 <= i < flow.minutes.len() ==> now - (#[trigger] flow.minutes[i]) * 60
                > config.self_window_secs as i64,
    ensures
        sweep.judge(flow, config, now) == sweep,
{
    lemma_all_old(flow.minutes, now, config.self_window_secs as i64);
}

proof fn lemma_self_words()
    ensures
        alert::unbroken(" drops over "@),
        alert::unbroken(" on "@),
        alert::unbroken(", to "@),
        alert::unbroken("/"@),
        alert::unbroken("Active in "@),
        alert::unbroken(" of the last "@),
        alert::unbroken(" minutes on "@),
        alert::unbroken("."@),
        alert::two_lines(".\nAddressed to one host rather than to a group."@),
        alert::two_lines(".\nThe firewall is dropping multicast this host sends to "@),
{
    reveal(alert::unbroken);
    reveal(alert::two_lines);
    reveal_strlit(" drops over ");
    reveal_strlit(" on ");
    reveal_strlit(", to ");
    reveal_strlit("/");
    reveal_strlit("Active in ");
    reveal_strlit(" of the last ");
    reveal_strlit(" minutes on ");
    reveal_strlit(".");
    reveal_strlit(".\nAddressed to one host rather than to a group.");
    reveal_strlit(".\nThe firewall is dropping multicast this host sends to ");
}

/// A popup about this host's own traffic is two lines at most, where nothing it
/// is made of breaks a line.
pub proof fn a_popup_is_two_lines(flow: SelfFlowView, config: ConfigView, now: i64)
    requires
        alert::unbroken(flow.key.dst),
        alert::unbroken(text::lowercased(flow.key.proto)),
        alert::unbroken(flow.iface),
    ensures
        alert::two_lines(flow.alert(config, now).body),
{
    broadcast use alert::lemma_unbroken_sum;
    broadcast use alert::lemma_two_lines_sum;
    broadcast use alert::lemma_number_is_unbroken;
    broadcast use alert::lemma_duration_is_unbroken;

    lemma_self_words();
    if flow.unicast {
        let first = text::dec(flow.total as nat) + " drops over "@ + alert::duration_text(
            flow.age(now),
        ) + " on "@ + flow.iface + ", to "@ + text::lowercased(flow.key.proto) + "/"@ + text::dec(
            flow.key.dport as nat,
        );
        alert::lemma_two_lines_after_one(
            first,
            ".\nAddressed to one host rather than to a group."@,
        );
    } else {
        let first = "Active in "@ + text::dec(flow.minutes.len()) + " of the last "@ + text::dec(
            (config.self_window_secs / 60) as nat,
        ) + " minutes on "@ + flow.iface;
        alert::lemma_two_lines_after_one(
            first,
            ".\nThe firewall is dropping multicast this host sends to "@,
        );
    }
}

// -- Laws over several drops and several ticks --------------------------------

/// A drop changes the entry of its own destination and no other: every other
/// entry stays as it is and where it is, and at most one is added, at the end.
pub proof fn a_drop_changes_its_own_destination_only(
    flows: Seq<SelfFlowView>,
    event: EventView,
    unicast: bool,
)
    requires
        well_formed(flows),
    ensures
        ({
            let after = recorded(flows, event, unicast);
            let p = position(flows, key_of(event), 0);
            &&& forall|i: int|
                0 <= i < flows.len() && (#[trigger] flows[i]).key != key_of(event) ==> after[i]
                    == flows[i]
            &&& p < flows.len() ==> after.len() == flows.len() && after[p] == flows[p].counted(
                event,
                unicast,
            )
            &&& p == flows.len() ==> after.len() == flows.len() + 1 && after[p]
                == SelfFlowView::opened(event, unicast).counted(event, unicast)
            &&& after[p].key == key_of(event)
        }),
{
    lemma_position(flows, key_of(event), 0);
}

/// How many of the first `n` drops went to a destination.
pub open spec fn drops_to(events: Seq<EventView>, key: SelfKeyView, n: int) -> nat
    decreases n,
{
    if n <= 0 {
        0
    } else if key_of(events[n - 1]) == key {
        drops_to(events, key, n - 1) + 1
    } else {
        drops_to(events, key, n - 1)
    }
}

/// The destinations after the first `n` drops; `unicast` says of each which sort
/// it is.
pub open spec fn fed(events: Seq<EventView>, unicast: Seq<bool>, n: int) -> Seq<SelfFlowView>
    decreases n,
{
    if n <= 0 {
        Seq::empty()
    } else {
        recorded(fed(events, unicast, n - 1), events[n - 1], unicast[n - 1])
    }
}

proof fn lemma_drops_to(events: Seq<EventView>, key: SelfKeyView, n: int)
    requires
        0 <= n <= events.len(),
    ensures
        drops_to(events, key, n) <= n,
    decreases n,
{
    if n > 0 {
        lemma_drops_to(events, key, n - 1);
    }
}

proof fn lemma_found(flows: Seq<SelfFlowView>, i: int)
    requires
        well_formed(flows),
        0 <= i < flows.len(),
    ensures
        position(flows, flows[i].key, 0) == i,
{
    lemma_position(flows, flows[i].key, 0);
    let p = position(flows, flows[i].key, 0);
    if p < flows.len() && p != i {
        if p < i {
            assert(flows[p].key != flows[i].key);
        } else {
            assert(flows[i].key != flows[p].key);
        }
    }
    if p == flows.len() {
        assert(flows[i].key != flows[i].key);
    }
}

proof fn lemma_totals(events: Seq<EventView>, unicast: Seq<bool>, n: int)
    requires
        0 <= n <= events.len(),
        events.len() <= u64::MAX,
    ensures
        well_formed(fed(events, unicast, n)),
        forall|k: int|
            0 <= k < fed(events, unicast, n).len() ==> (#[trigger] fed(events, unicast, n)[k]).total
                == drops_to(events, fed(events, unicast, n)[k].key, n),
        forall|key: SelfKeyView|
            position(fed(events, unicast, n), key, 0) == fed(events, unicast, n).len()
                ==> #[trigger] drops_to(events, key, n) == 0,
    decreases n,
{
    if n > 0 {
        lemma_totals(events, unicast, n - 1);
        let event = events[n - 1];
        let before = fed(events, unicast, n - 1);
        let after = fed(events, unicast, n);
        let p = position(before, key_of(event), 0);
        lemma_position(before, key_of(event), 0);
        lemma_recorded_well_formed(before, event, unicast[n - 1]);
        lemma_drops_to(events, key_of(event), n - 1);
        a_drop_changes_its_own_destination_only(before, event, unicast[n - 1]);
        assert forall|k: int| 0 <= k < after.len() implies (#[trigger] after[k]).total == drops_to(
            events,
            after[k].key,
            n,
        ) by {
            if k == p {
                if p < before.len() {
                    assert(before[p].total == drops_to(events, before[p].key, n - 1));
                } else {
                    assert(drops_to(events, key_of(event), n - 1) == 0);
                }
            } else {
                assert(before[k].key != key_of(event)) by {
                    if before[k].key == key_of(event) {
                        lemma_found(before, k);
                    }
                }
                assert(after[k] == before[k]);
                assert(before[k].total == drops_to(events, before[k].key, n - 1));
            }
        }
        assert forall|key: SelfKeyView|
            position(after, key, 0) == after.len() implies #[trigger] drops_to(
            events,
            key,
            n,
        ) == 0 by {
            lemma_position(after, key, 0);
            assert(after[p].key != key);
            lemma_position(before, key, 0);
            let q = position(before, key, 0);
            if q < before.len() {
                assert(after[q].key == key);
            }
            assert(drops_to(events, key, n - 1) == 0);
        }
    }
}

/// The minutes in which a drop went to a destination.
pub open spec fn minutes_of_drops_to(events: Seq<EventView>, key: SelfKeyView) -> Set<i64> {
    Set::new(|m: i64| dropped_in(events, key, m, events.len() as int))
}

/// One of the first `n` drops went to the destination in this minute.
pub open spec fn dropped_in(events: Seq<EventView>, key: SelfKeyView, minute: i64, n: int) -> bool {
    exists|i: int|
        0 <= i < n && key_of(#[trigger] events[i]) == key && events[i].ts as int / 60 == minute
}

proof fn lemma_dropped_in(events: Seq<EventView>, key: SelfKeyView, minute: i64, n: int)
    requires
        0 < n <= events.len(),
    ensures
        dropped_in(events, key, minute, n) <==> dropped_in(events, key, minute, n - 1) || (key_of(
            events[n - 1],
        ) == key && events[n - 1].ts as int / 60 == minute),
{
    if dropped_in(events, key, minute, n) {
        let i = choose|i: int|
            0 <= i < n && key_of(#[trigger] events[i]) == key && events[i].ts as int / 60 == minute;
        assert(i == n - 1 || dropped_in(events, key, minute, n - 1));
    }
    if dropped_in(events, key, minute, n - 1) {
        let i = choose|i: int|
            0 <= i < n - 1 && key_of(#[trigger] events[i]) == key && events[i].ts as int / 60
                == minute;
        assert(key_of(events[i]) == key);
    }
    if key_of(events[n - 1]) == key && events[n - 1].ts as int / 60 == minute {
        assert(dropped_in(events, key, minute, n));
    }
}

proof fn lemma_minutes_fed(events: Seq<EventView>, unicast: Seq<bool>, n: int, m: i64)
    requires
        0 <= n <= events.len(),
        events.len() <= u64::MAX,
    ensures
        forall|k: int|
            0 <= k < fed(events, unicast, n).len() ==> ((#[trigger] fed(
                events,
                unicast,
                n,
            )[k]).minutes.contains(m) <==> dropped_in(
                events,
                fed(events, unicast, n)[k].key,
                m,
                n,
            )),
    decreases n,
{
    if n > 0 {
        lemma_minutes_fed(events, unicast, n - 1, m);
        lemma_totals(events, unicast, n - 1);
        lemma_totals(events, unicast, n);
        let event = events[n - 1];
        let before = fed(events, unicast, n - 1);
        let after = fed(events, unicast, n);
        let p = position(before, key_of(event), 0);
        let minute = (event.ts as int / 60) as i64;
        lemma_position(before, key_of(event), 0);
        a_drop_changes_its_own_destination_only(before, event, unicast[n - 1]);
        assert forall|k: int| 0 <= k < after.len() implies ((
        #[trigger] after[k]).minutes.contains(m) <==> dropped_in(
            events,
            after[k].key,
            m,
            n,
        )) by {
            lemma_dropped_in(events, after[k].key, m, n);
            if k == p {
                let new_minutes = after[k].minutes;
                if p < before.len() {
                    let old_minutes = before[p].minutes;
                    assert(old_minutes.contains(m) <==> dropped_in(
                        events,
                        before[p].key,
                        m,
                        n - 1,
                    ));
                    if old_minutes.contains(m) {
                        let i = choose|i: int| 0 <= i < old_minutes.len() && old_minutes[i] == m;
                        assert(new_minutes[i] == m);
                    }
                    if m == minute && !old_minutes.contains(minute) {
                        assert(new_minutes[old_minutes.len() as int] == m);
                    }
                } else {
                    lemma_never_dropped(events, key_of(event), m, n - 1);
                    assert(new_minutes =~= seq![minute]);
                    assert(new_minutes[0] == minute);
                }
            } else {
                assert(before[k].key != key_of(event)) by {
                    if before[k].key == key_of(event) {
                        lemma_found(before, k);
                    }
                }
                assert(after[k] == before[k]);
            }
        }
    }
}

proof fn lemma_never_dropped(events: Seq<EventView>, key: SelfKeyView, m: i64, n: int)
    requires
        0 <= n <= events.len(),
        drops_to(events, key, n) == 0,
    ensures
        !dropped_in(events, key, m, n),
    decreases n,
{
    if n > 0 {
        lemma_never_dropped(events, key, m, n - 1);
        lemma_dropped_in(events, key, m, n);
    }
}

/// How a destination is described by what went to it.
pub open spec fn described_by(key: SelfKeyView, drops: nat, minutes: nat) -> Seq<char> {
    key.dst + " → "@ + text::lowercased(key.proto) + "/"@ + text::dec(key.dport as nat) + " ("@
        + text::dec(drops) + " drops in "@ + text::dec(minutes) + " active minute(s))"@
}

/// The counts that are described are those of everything fed in: each
/// destination shows as many drops as went to it, in as many distinct minutes,
/// and every destination of a drop is there.
pub proof fn every_drop_is_counted_once(events: Seq<EventView>, unicast: Seq<bool>)
    requires
        events.len() <= u64::MAX,
    ensures
        ({
            let n = events.len() as int;
            let flows = fed(events, unicast, n);
            &&& forall|k: int|
                0 <= k < flows.len() ==> (#[trigger] flows[k]).described() == described_by(
                    flows[k].key,
                    drops_to(events, flows[k].key, n),
                    minutes_of_drops_to(events, flows[k].key).len(),
                )
            &&& forall|k: int|
                0 <= k < flows.len() ==> (#[trigger] flows[k]).total == drops_to(
                    events,
                    flows[k].key,
                    n,
                )
            &&& forall|key: SelfKeyView|
                #[trigger]
                drops_to(events, key, n) > 0 ==> exists|k: int|
                    0 <= k < flows.len() && (#[trigger] flows[k]).key == key
        }),
{
    let n = events.len() as int;
    let flows = fed(events, unicast, n);
    lemma_totals(events, unicast, n);
    assert forall|key: SelfKeyView| #[trigger] drops_to(events, key, n) > 0 implies exists|k: int|
        0 <= k < flows.len() && (#[trigger] flows[k]).key == key by {
        lemma_position(flows, key, 0);
        assert(flows[position(flows, key, 0)].key == key);
    }
    assert forall|k: int| 0 <= k < flows.len() implies (#[trigger] flows[k]).described()
        == described_by(
        flows[k].key,
        drops_to(events, flows[k].key, n),
        minutes_of_drops_to(events, flows[k].key).len(),
    ) by {
        let seen = minutes_of_drops_to(events, flows[k].key);
        assert(flows[k].minutes.no_duplicates());
        assert forall|m: i64| seen.contains(m) <==> #[trigger] flows[k].minutes.contains(m) by {
            lemma_minutes_fed(events, unicast, n, m);
        }
        assert(seen =~= flows[k].minutes.to_set());
        flows[k].minutes.unique_seq_to_set();
    }
}

/// A tick raises the alert of every destination that owes one, and no other.
pub proof fn a_tick_raises_what_is_owed(
    tracker: SelfView,
    config: ConfigView,
    now: i64,
    alert: AlertView,
)
    ensures
        tracker.raised(config, now).contains(alert) <==> exists|i: int|
            0 <= i < tracker.flows.len() && #[trigger] tracker.alerts_at(config, now, i) && alert
                == tracker.flows[i].pruned(config, now).alert(config, now),
{
    lemma_raised_upto(tracker, config, now, alert, tracker.flows.len() as int);
}

proof fn lemma_raised_upto(
    tracker: SelfView,
    config: ConfigView,
    now: i64,
    alert: AlertView,
    n: int,
)
    requires
        0 <= n <= tracker.flows.len(),
    ensures
        tracker.swept(config, now, n).alerts.contains(alert) <==> exists|i: int|
            0 <= i < n && #[trigger] tracker.alerts_at(config, now, i) && alert
                == tracker.flows[i].pruned(config, now).alert(config, now),
    decreases n,
{
    if n > 0 {
        lemma_raised_upto(tracker, config, now, alert, n - 1);
        let before = tracker.swept(config, now, n - 1);
        let after = tracker.swept(config, now, n);
        let flow = tracker.flows[n - 1];
        let last = flow.pruned(config, now).alert(config, now);
        if tracker.alerts_at(config, now, n - 1) {
            assert(flow.judged(config, now, before.spoken).unwrap().alert(config, now) == last);
            assert(after.alerts == before.alerts.push(last));
            assert(after.alerts[before.alerts.len() as int] == last);
            if before.alerts.contains(alert) {
                let k = choose|k: int| 0 <= k < before.alerts.len() && before.alerts[k] == alert;
                assert(after.alerts[k] == alert);
            }
            if after.alerts.contains(alert) && alert != last {
                let k = choose|k: int| 0 <= k < after.alerts.len() && after.alerts[k] == alert;
                assert(before.alerts[k] == alert);
            }
        } else {
            assert(after.alerts == before.alerts);
        }
    } else {
        assert(!tracker.swept(config, now, n).alerts.contains(alert));
    }
}

/// Something that happens to a tracker.
pub enum SelfStep {
    /// A packet this host sent was dropped.
    Record { event: EventView, unicast: bool },
    /// The destinations are evaluated.
    Tick { now: i64 },
}

impl SelfStep {
    pub open spec fn time(self) -> i64 {
        match self {
            SelfStep::Record { event, .. } => event.ts,
            SelfStep::Tick { now } => now,
        }
    }
}

impl SelfView {
    pub open spec fn stepped(self, step: SelfStep, config: ConfigView) -> SelfView {
        match step {
            SelfStep::Record { event, unicast } => self.recorded(event, unicast),
            SelfStep::Tick { now } => self.ticked(config, now),
        }
    }

    /// The tracker after the first `n` steps.
    pub open spec fn run(self, steps: Seq<SelfStep>, config: ConfigView, n: int) -> SelfView
        decreases n,
    {
        if n <= 0 {
            self
        } else {
            self.run(steps, config, n - 1).stepped(steps[n - 1], config)
        }
    }

    /// A tick raises an alert about the destination at position `i`.
    pub open spec fn alerts_at(self, config: ConfigView, now: i64, i: int) -> bool {
        self.flows[i].alerts(config, now, self.swept(config, now, i).spoken)
    }
}

/// Every evaluation among these steps comes before a cooldown that began at
/// `start` is over.
pub open spec fn within_cooldown(steps: Seq<SelfStep>, start: i64, config: ConfigView) -> bool {
    forall|k: int|
        0 <= k < steps.len() ==> ((#[trigger] steps[k]) matches SelfStep::Tick { now } ==> now
            - start < config.cooldown_secs as i64)
}

proof fn lemma_held_through_a_sweep(
    tracker: SelfView,
    config: ConfigView,
    now: i64,
    key: SelfKeyView,
    m: int,
    n: int,
)
    requires
        0 <= m <= n <= tracker.flows.len(),
        cooldown::held(tracker.swept(config, now, m).spoken, key, now, config.cooldown_secs),
    ensures
        cooldown::last(tracker.swept(config, now, n).spoken, key, 0) == cooldown::last(
            tracker.swept(config, now, m).spoken,
            key,
            0,
        ),
        forall|i: int|
            m <= i < n && (#[trigger] tracker.flows[i]).key == key ==> !tracker.alerts_at(
                config,
                now,
                i,
            ),
    decreases n - m,
{
    if m < n {
        lemma_held_through_a_sweep(tracker, config, now, key, m, n - 1);
        let flow = tracker.flows[n - 1];
        let before = tracker.swept(config, now, n - 1);
        let after = tracker.swept(config, now, n);
        assert(cooldown::held(before.spoken, key, now, config.cooldown_secs));
        if flow.alerts(config, now, before.spoken) {
            assert(flow.key != key);
            assert(after.spoken == cooldown::noted(before.spoken, flow.key, now, 0));
            cooldown::subjects_do_not_share_a_cooldown(before.spoken, flow.key, key, now);
        } else {
            assert(after.spoken == before.spoken);
        }
        assert forall|i: int| m <= i < n && (#[trigger] tracker.flows[i]).key == key implies
            !tracker.alerts_at(config, now, i) by {
            if i == n - 1 {
                assert(!flow.alerts(config, now, before.spoken));
            }
        }
    }
}

proof fn lemma_held_through_a_run(
    tracker: SelfView,
    config: ConfigView,
    steps: Seq<SelfStep>,
    key: SelfKeyView,
    start: i64,
    n: int,
)
    requires
        0 <= n <= steps.len(),
        within_cooldown(steps, start, config),
        cooldown::last(tracker.spoken, key, 0) == Some(start),
    ensures
        cooldown::last(tracker.run(steps, config, n).spoken, key, 0) == Some(start),
    decreases n,
{
    if n > 0 {
        lemma_held_through_a_run(tracker, config, steps, key, start, n - 1);
        let before = tracker.run(steps, config, n - 1);
        match steps[n - 1] {
            SelfStep::Tick { now } => {
                let all = before.flows.len() as int;
                assert(cooldown::held(before.spoken, key, now, config.cooldown_secs));
                lemma_held_through_a_sweep(before, config, now, key, 0, all);
                cooldown::a_cooldown_is_kept_until_it_is_over(
                    before.swept(config, now, all).spoken,
                    key,
                    now,
                    config.cooldown_secs,
                );
            },
            _ => {},
        }
    }
}

/// A destination alerts at most once per cooldown, whatever happens in between:
/// after an alert none is raised about it before the cooldown is over, even if
/// it was forgotten meanwhile and came back.
pub proof fn one_alert_per_cooldown(
    tracker: SelfView,
    config: ConfigView,
    now: i64,
    i: int,
    steps: Seq<SelfStep>,
    later: i64,
    j: int,
)
    requires
        0 <= i < tracker.flows.len(),
        tracker.alerts_at(config, now, i),
        within_cooldown(steps, now, config),
        now <= later,
        later - now < config.cooldown_secs as i64,
    ensures
        ({
            let after = tracker.ticked(config, now).run(steps, config, steps.len() as int);
            0 <= j < after.flows.len() && after.flows[j].key == tracker.flows[i].key
                ==> !after.alerts_at(config, later, j)
        }),
{
    let key = tracker.flows[i].key;
    let all = tracker.flows.len() as int;
    let before = tracker.swept(config, now, i);
    cooldown::an_alert_is_on_record(before.spoken, key, now);
    assert(tracker.swept(config, now, i + 1) == before.judge(tracker.flows[i], config, now));
    assert(cooldown::last(tracker.swept(config, now, i + 1).spoken, key, 0) == Some(now));
    lemma_held_through_a_sweep(tracker, config, now, key, i + 1, all);
    cooldown::a_cooldown_is_kept_until_it_is_over(
        tracker.swept(config, now, all).spoken,
        key,
        now,
        config.cooldown_secs,
    );
    let ticked = tracker.ticked(config, now);
    let after = ticked.run(steps, config, steps.len() as int);
    lemma_held_through_a_run(ticked, config, steps, key, now, steps.len() as int);
    if 0 <= j < after.flows.len() {
        assert(cooldown::held(after.spoken, key, later, config.cooldown_secs));
        lemma_held_through_a_sweep(after, config, later, key, 0, after.flows.len() as int);
    }
}

proof fn lemma_unspoken_through_a_sweep(
    tracker: SelfView,
    config: ConfigView,
    now: i64,
    key: SelfKeyView,
    n: int,
)
    requires
        0 <= n <= tracker.flows.len(),
        forall|i: int| 0 <= i < n ==> (#[trigger] tracker.flows[i]).key != key,
    ensures
        cooldown::last(tracker.swept(config, now, n).spoken, key, 0) == cooldown::last(
            tracker.spoken,
            key,
            0,
        ),
    decreases n,
{
    if n > 0 {
        lemma_unspoken_through_a_sweep(tracker, config, now, key, n - 1);
        let flow = tracker.flows[n - 1];
        let before = tracker.swept(config, now, n - 1);
        let after = tracker.swept(config, now, n);
        if flow.alerts(config, now, before.spoken) {
            assert(after.spoken == cooldown::noted(before.spoken, flow.key, now, 0));
            cooldown::subjects_do_not_share_a_cooldown(before.spoken, flow.key, key, now);
        } else {
            assert(after.spoken == before.spoken);
        }
    }
}

/// This step is a drop on the way to the destination, in this minute.
pub open spec fn drops_in(step: SelfStep, key: SelfKeyView, minute: i64) -> bool {
    step matches SelfStep::Record { event, .. } && key_of(event) == key && event.ts as int / 60
        == minute
}

pub open spec fn seen(steps: Seq<SelfStep>, key: SelfKeyView, minute: i64, n: int) -> bool {
    exists|i: int| 0 <= i < n && drops_in(#[trigger] steps[i], key, minute)
}

/// The minutes in the window in which a drop on the way to the destination was
/// seen.
pub open spec fn active_minutes(
    steps: Seq<SelfStep>,
    key: SelfKeyView,
    now: i64,
    config: ConfigView,
) -> Set<i64> {
    Set::new(
        |m: i64|
            now - m * 60 <= config.self_window_secs as i64 && seen(
                steps,
                key,
                m,
                steps.len() as int,
            ),
    )
}

pub open spec fn in_time_order(steps: Seq<SelfStep>) -> bool {
    forall|i: int, j: int|
        0 <= i <= j < steps.len() ==> (#[trigger] steps[i]).time() <= (
        #[trigger] steps[j]).time()
}

/// Every drop on the way to the destination was addressed to a group.
pub open spec fn group_only(steps: Seq<SelfStep>, key: SelfKeyView) -> bool {
    forall|i: int|
        0 <= i < steps.len() ==> ((#[trigger] steps[i]) matches SelfStep::Record {
            event,
            unicast,
        } ==> key_of(event) == key ==> !unicast)
}

spec fn increasing(minutes: Seq<i64>) -> bool {
    forall|i: int, j: int| 0 <= i < j < minutes.len() ==> minutes[i] < minutes[j]
}

proof fn lemma_window_of_increasing(minutes: Seq<i64>, now: i64, window: i64)
    requires
        increasing(minutes),
    ensures
        increasing(still_in_window(minutes, now, window)),
        forall|m: i64|
            #[trigger] still_in_window(minutes, now, window).contains(m) <==> minutes.contains(m)
                && now - m * 60 <= window,
    decreases minutes.len(),
{
    let left = still_in_window(minutes, now, window);
    if minutes.len() > 0 && now - minutes[0] * 60 > window {
        let rest = minutes.skip(1);
        assert forall|i: int, j: int| 0 <= i < j < rest.len() implies rest[i] < rest[j] by {
            assert(minutes[i + 1] < minutes[j + 1]);
        }
        lemma_window_of_increasing(rest, now, window);
        assert forall|m: i64| #[trigger] left.contains(m) <==> minutes.contains(m) && now - m * 60
            <= window by {
            if rest.contains(m) {
                let k = choose|k: int| 0 <= k < rest.len() && rest[k] == m;
                assert(minutes[k + 1] == m);
            }
            if minutes.contains(m) && now - m * 60 <= window {
                let k = choose|k: int| 0 <= k < minutes.len() && minutes[k] == m;
                assert(rest[k - 1] == m);
            }
        }
    } else {
        assert forall|m: i64| #[trigger] left.contains(m) <==> minutes.contains(m) && now - m * 60
            <= window by {
            if minutes.contains(m) {
                let k = choose|k: int| 0 <= k < minutes.len() && minutes[k] == m;
                if k > 0 {
                    assert(minutes[0] < minutes[k]);
                }
            }
        }
    }
}

/// What a sweep leaves of the destination at position `p`: its minutes in the
/// window, or nothing.
proof fn lemma_left_by_a_sweep(tracker: SelfView, config: ConfigView, now: i64, p: int, n: int)
    requires
        well_formed(tracker.flows),
        0 <= n <= tracker.flows.len(),
        0 <= p < tracker.flows.len(),
    ensures
        ({
            let left = tracker.flows[p].pruned(config, now);
            let flows = tracker.swept(config, now, n).flows;
            &&& forall|k: int|
                0 <= k < flows.len() && (#[trigger] flows[k]).key == left.key ==> left.minutes.len()
                    > 0 && flows[k].minutes == left.minutes && flows[k].unicast == left.unicast
            &&& p < n && left.minutes.len() > 0 ==> exists|k: int|
                0 <= k < flows.len() && (#[trigger] flows[k]).key == left.key
        }),
    decreases n,
{
    if n > 0 {
        lemma_left_by_a_sweep(tracker, config, now, p, n - 1);
        let left = tracker.flows[p].pruned(config, now);
        let sweep = tracker.swept(config, now, n - 1);
        let before = sweep.flows;
        let after = tracker.swept(config, now, n).flows;
        let flow = tracker.flows[n - 1];
        let judged = flow.judged(config, now, sweep.spoken);
        assert(judged is None ==> after == before);
        assert(judged is Some ==> after == before.push(judged.unwrap()));
        assert forall|k: int|
            0 <= k < after.len() && (#[trigger] after[k]).key
                == left.key implies left.minutes.len() > 0 && after[k].minutes == left.minutes
            && after[k].unicast == left.unicast by {
            if k < before.len() {
                assert(after[k] == before[k]);
            } else {
                if n - 1 < p {
                    assert(tracker.flows[n - 1].key != tracker.flows[p].key);
                } else if p < n - 1 {
                    assert(tracker.flows[p].key != tracker.flows[n - 1].key);
                }
            }
        }
        if p < n && left.minutes.len() > 0 {
            if p < n - 1 {
                let k = choose|k: int| 0 <= k < before.len() && (#[trigger] before[k]).key
                    == left.key;
                assert(after[k].key == left.key);
            } else {
                assert(after[before.len() as int].key == left.key);
            }
        }
    }
}

/// What a tracker that was fed in time order knows of a destination that only
/// groups are addressed by: its minutes, in order, and all that lie in the
/// window.
spec fn keeps_minutes(
    flows: Seq<SelfFlowView>,
    steps: Seq<SelfStep>,
    key: SelfKeyView,
    config: ConfigView,
    n: int,
) -> bool {
    let p = position(flows, key, 0);
    &&& well_formed(flows)
    &&& p < flows.len() ==> {
        &&& !flows[p].unicast
        &&& increasing(flows[p].minutes)
        &&& forall|m: i64| #[trigger] flows[p].minutes.contains(m) ==> seen(steps, key, m, n)
        &&& forall|m: i64|
            #[trigger] seen(steps, key, m, n) && steps[n - 1].time() - m * 60
                <= config.self_window_secs as i64 ==> flows[p].minutes.contains(m)
    }
    &&& p == flows.len() ==> forall|m: i64| #[trigger]
        seen(steps, key, m, n) ==> steps[n - 1].time() - m * 60 > config.self_window_secs as i64
}

proof fn lemma_seen(steps: Seq<SelfStep>, key: SelfKeyView, m: i64, n: int)
    requires
        0 < n <= steps.len(),
    ensures
        seen(steps, key, m, n) <==> seen(steps, key, m, n - 1) || drops_in(steps[n - 1], key, m),
{
    if seen(steps, key, m, n) {
        let i = choose|i: int| 0 <= i < n && drops_in(#[trigger] steps[i], key, m);
        assert(i == n - 1 || seen(steps, key, m, n - 1));
    }
    if seen(steps, key, m, n - 1) {
        let i = choose|i: int| 0 <= i < n - 1 && drops_in(#[trigger] steps[i], key, m);
        assert(drops_in(steps[i], key, m));
    }
    if drops_in(steps[n - 1], key, m) {
        assert(seen(steps, key, m, n));
    }
}

/// A minute that was seen is none of the future.
proof fn lemma_seen_in_the_past(steps: Seq<SelfStep>, key: SelfKeyView, m: i64, n: int, later: i64)
    requires
        0 <= n <= steps.len(),
        in_time_order(steps),
        seen(steps, key, m, n),
        steps[n - 1].time() <= later,
    ensures
        m <= later as int / 60,
{
    let i = choose|i: int| 0 <= i < n && drops_in(#[trigger] steps[i], key, m);
    assert(steps[i].time() <= steps[n - 1].time());
}

proof fn lemma_position_kept(a: Seq<SelfFlowView>, b: Seq<SelfFlowView>, key: SelfKeyView)
    requires
        well_formed(b),
        position(a, key, 0) < a.len() ==> position(a, key, 0) < b.len() && b[position(
            a,
            key,
            0,
        )].key == key,
        position(a, key, 0) == a.len() ==> forall|k: int|
            0 <= k < b.len() ==> (#[trigger] b[k]).key != key,
    ensures
        position(a, key, 0) < a.len() ==> position(b, key, 0) == position(a, key, 0),
        position(a, key, 0) == a.len() ==> position(b, key, 0) == b.len(),
{
    lemma_position(a, key, 0);
    lemma_position(b, key, 0);
    if position(a, key, 0) < a.len() {
        lemma_found(b, position(a, key, 0));
    }
}

proof fn lemma_keeps_minutes_of_a_drop(
    flows: Seq<SelfFlowView>,
    steps: Seq<SelfStep>,
    key: SelfKeyView,
    config: ConfigView,
    n: int,
)
    requires
        0 < n <= steps.len(),
        in_time_order(steps),
        group_only(steps, key),
        keeps_minutes(flows, steps, key, config, n - 1),
        steps[n - 1] is Record,
    ensures
        keeps_minutes(
            recorded(flows, steps[n - 1]->event, steps[n - 1]->unicast),
            steps,
            key,
            config,
            n,
        ),
{
    let event = steps[n - 1]->event;
    let unicast = steps[n - 1]->unicast;
    let after = recorded(flows, event, unicast);
    let p = position(flows, key, 0);
    let minute = (event.ts as int / 60) as i64;
    let window = config.self_window_secs as i64;
    lemma_position(flows, key, 0);
    lemma_recorded_well_formed(flows, event, unicast);
    a_drop_changes_its_own_destination_only(flows, event, unicast);
    assert forall|m: i64|
        seen(steps, key, m, n) <==> #[trigger] seen(steps, key, m, n - 1) || (key_of(event) == key
            && m == minute) by {
        lemma_seen(steps, key, m, n);
    }
    if n > 1 {
        assert(steps[n - 2].time() <= steps[n - 1].time());
    }
    assert forall|m: i64| #[trigger] seen(steps, key, m, n - 1) implies m <= minute by {
        lemma_seen_in_the_past(steps, key, m, n - 1, event.ts);
    }
    if key_of(event) == key {
        assert(!unicast);
        lemma_found(after, p);
        if p < flows.len() {
            let old_minutes = flows[p].minutes;
            let new_minutes = after[p].minutes;
            assert forall|m: i64| #[trigger] new_minutes.contains(m) <==> old_minutes.contains(m)
                || m == minute by {
                if old_minutes.contains(m) {
                    let k = choose|k: int| 0 <= k < old_minutes.len() && old_minutes[k] == m;
                    assert(new_minutes[k] == m);
                }
                if m == minute && !old_minutes.contains(minute) {
                    assert(new_minutes[old_minutes.len() as int] == minute);
                }
            }
            assert forall|i: int, j: int| 0 <= i < j < new_minutes.len() implies new_minutes[i]
                < new_minutes[j] by {
                if j == old_minutes.len() {
                    assert(old_minutes.contains(old_minutes[i]));
                    assert(seen(steps, key, old_minutes[i], n - 1));
                }
            }
            assert forall|m: i64| #[trigger] new_minutes.contains(m) implies seen(
                steps,
                key,
                m,
                n,
            ) by {
                assert(seen(steps, key, m, n) <==> seen(steps, key, m, n - 1) || m == minute);
            }
            assert forall|m: i64|
                #[trigger] seen(steps, key, m, n) && steps[n - 1].time() - m * 60
                    <= window implies new_minutes.contains(m) by {
                assert(seen(steps, key, m, n) <==> seen(steps, key, m, n - 1) || m == minute);
                if seen(steps, key, m, n - 1) {
                    let i = choose|i: int| 0 <= i < n - 1 && drops_in(#[trigger] steps[i], key, m);
                    assert(old_minutes.contains(m));
                }
                assert(new_minutes.contains(m));
            }
        } else {
            let new_minutes = after[p].minutes;
            assert(new_minutes =~= seq![minute]);
            assert forall|m: i64| #[trigger] new_minutes.contains(m) implies seen(
                steps,
                key,
                m,
                n,
            ) by {
                assert(seen(steps, key, m, n) <==> seen(steps, key, m, n - 1) || m == minute);
            }
            assert forall|m: i64|
                #[trigger] seen(steps, key, m, n) && steps[n - 1].time() - m * 60
                    <= window implies new_minutes.contains(m) by {
                assert(seen(steps, key, m, n) <==> seen(steps, key, m, n - 1) || m == minute);
                assert(new_minutes[0] == minute);
            }
        }
    } else {
        if p < flows.len() {
            assert(after[p] == flows[p]);
        }
        if p == flows.len() {
            assert forall|k: int| 0 <= k < after.len() implies (#[trigger] after[k]).key != key by {
                if k < flows.len() {
                    assert(flows[k].key != key);
                    if flows[k].key == key_of(event) {
                        lemma_found(flows, k);
                    }
                } else {
                    assert(after[k].key == key_of(event));
                }
            }
        }
        lemma_position_kept(flows, after, key);
        assert forall|m: i64| #[trigger] seen(steps, key, m, n) implies seen(
            steps,
            key,
            m,
            n - 1,
        ) by {
            lemma_seen(steps, key, m, n);
        }
        assert forall|m: i64| seen(steps, key, m, n - 1) implies #[trigger] seen(
            steps,
            key,
            m,
            n,
        ) by {
            lemma_seen(steps, key, m, n);
        }
        if p < flows.len() {
            assert forall|m: i64| #[trigger] after[p].minutes.contains(m) implies seen(
                steps,
                key,
                m,
                n,
            ) by {
                assert(flows[p].minutes.contains(m));
                assert(seen(steps, key, m, n - 1));
            }
        }
    }
}

proof fn lemma_keeps_minutes_of_a_tick(
    tracker: SelfView,
    steps: Seq<SelfStep>,
    key: SelfKeyView,
    config: ConfigView,
    n: int,
)
    requires
        0 < n <= steps.len(),
        in_time_order(steps),
        keeps_minutes(tracker.flows, steps, key, config, n - 1),
        steps[n - 1] is Tick,
    ensures
        keeps_minutes(
            tracker.ticked(config, steps[n - 1].time()).flows,
            steps,
            key,
            config,
            n,
        ),
{
    let now = steps[n - 1].time();
    let flows = tracker.flows;
    let all = flows.len() as int;
    let after = tracker.ticked(config, now).flows;
    let p = position(flows, key, 0);
    let q = position(after, key, 0);
    let window = config.self_window_secs as i64;
    lemma_position(flows, key, 0);
    lemma_swept(tracker, config, now, all);
    lemma_position(after, key, 0);
    if n > 1 {
        assert(steps[n - 2].time() <= steps[n - 1].time());
    }
    assert forall|m: i64| #[trigger] seen(steps, key, m, n) implies seen(
        steps,
        key,
        m,
        n - 1,
    ) by {
        lemma_seen(steps, key, m, n);
    }
    if p < flows.len() {
        let left = flows[p].pruned(config, now);
        lemma_left_by_a_sweep(tracker, config, now, p, all);
        lemma_window_of_increasing(flows[p].minutes, now, window);
        if q < after.len() {
            assert(after[q].minutes == left.minutes);
            assert forall|m: i64| #[trigger] after[q].minutes.contains(m) implies seen(
                steps,
                key,
                m,
                n,
            ) by {
                assert(left.minutes.contains(m));
                assert(flows[p].minutes.contains(m));
                lemma_seen(steps, key, m, n);
            }
            assert forall|m: i64|
                #[trigger] seen(steps, key, m, n) && now - m * 60
                    <= window implies after[q].minutes.contains(m) by {
                assert(seen(steps, key, m, n - 1));
                assert(flows[p].minutes.contains(m));
                assert(left.minutes.contains(m));
            }
        } else {
            assert(left.minutes.len() == 0);
            assert forall|m: i64| #[trigger] seen(steps, key, m, n) implies now - m * 60
                > window by {
                if now - m * 60 <= window {
                    assert(seen(steps, key, m, n - 1));
                    assert(flows[p].minutes.contains(m));
                    assert(left.minutes.contains(m));
                }
            }
        }
    } else {
        if q < after.len() {
            let i = choose|i: int| 0 <= i < all && after[q].key == (#[trigger] flows[i]).key;
            assert(flows[i].key == key);
        }
        assert forall|m: i64| #[trigger] seen(steps, key, m, n) implies now - m * 60 > window by {
            assert(seen(steps, key, m, n - 1));
        }
    }
}

proof fn lemma_keeps_minutes(
    steps: Seq<SelfStep>,
    key: SelfKeyView,
    config: ConfigView,
    n: int,
)
    requires
        0 <= n <= steps.len(),
        in_time_order(steps),
        group_only(steps, key),
    ensures
        keeps_minutes(SelfView::started().run(steps, config, n).flows, steps, key, config, n),
    decreases n,
{
    if n > 0 {
        lemma_keeps_minutes(steps, key, config, n - 1);
        let before = SelfView::started().run(steps, config, n - 1);
        if steps[n - 1] is Record {
            lemma_keeps_minutes_of_a_drop(before.flows, steps, key, config, n);
        } else {
            lemma_keeps_minutes_of_a_tick(before, steps, key, config, n);
        }
    }
}

/// Group traffic alerts from enough active minutes, and only from them: for
/// drops and ticks in time order, a tick alerts about a destination exactly
/// where the distinct minutes of its drops that lie in the window are enough,
/// given that its cooldown is over.
pub proof fn group_traffic_alerts_from_enough_active_minutes(
    steps: Seq<SelfStep>,
    key: SelfKeyView,
    config: ConfigView,
    now: i64,
)
    requires
        in_time_order(steps),
        group_only(steps, key),
        steps.len() > 0 ==> steps.last().time() <= now,
        ({
            let tracker = SelfView::started().run(steps, config, steps.len() as int);
            let p = position(tracker.flows, key, 0);
            &&& p < tracker.flows.len() ==> cooldown::cooled(
                tracker.flows[p].alerted_at,
                now,
                config.cooldown_secs,
            )
            &&& !cooldown::held(tracker.spoken, key, now, config.cooldown_secs)
        }),
    ensures
        ({
            let tracker = SelfView::started().run(steps, config, steps.len() as int);
            let p = position(tracker.flows, key, 0);
            let active = active_minutes(steps, key, now, config);
            p < tracker.flows.len() && tracker.alerts_at(config, now, p) <==> active.len() >= 1
                && active.len() >= config.self_min_active_minutes
        }),
{
    let n = steps.len() as int;
    let tracker = SelfView::started().run(steps, config, n);
    let p = position(tracker.flows, key, 0);
    let active = active_minutes(steps, key, now, config);
    let window = config.self_window_secs as i64;
    lemma_keeps_minutes(steps, key, config, n);
    lemma_position(tracker.flows, key, 0);
    if p < tracker.flows.len() {
        let flow = tracker.flows[p];
        let left = flow.pruned(config, now);
        lemma_window_of_increasing(flow.minutes, now, window);
        assert forall|m: i64| active.contains(m) <==> #[trigger] left.minutes.contains(m) by {
            if seen(steps, key, m, n) && now - m * 60 <= window {
                assert(steps.last() == steps[n - 1]);
                assert(flow.minutes.contains(m));
            }
        }
        assert(active =~= left.minutes.to_set());
        left.minutes.unique_seq_to_set();
        assert forall|i: int| 0 <= i < p implies (#[trigger] tracker.flows[i]).key != key by {
            assert(tracker.flows[i].key != tracker.flows[p].key);
        }
        lemma_unspoken_through_a_sweep(tracker, config, now, key, p);
    } else {
        assert forall|m: i64| !active.contains(m) by {
            if seen(steps, key, m, n) {
                let i = choose|i: int| 0 <= i < n && drops_in(#[trigger] steps[i], key, m);
                assert(steps.last() == steps[n - 1]);
            }
        }
        assert(active =~= Set::<i64>::empty());
    }
}

/// A drop counts one, its bytes, and its minute once: the minute that its time
/// falls in, counted from the epoch. One drop to a single host makes the flow one
/// of that kind for good.
pub proof fn a_drop_counts_its_bytes_and_its_minute(
    flow: SelfFlowView,
    event: EventView,
    unicast: bool,
    minute: i64,
)
    requires
        flow.total < u64::MAX,
        flow.bytes + event.len <= u64::MAX,
        60 * minute <= event.ts < 60 * minute + 60,
    ensures
        ({
            let after = flow.counted(event, unicast);
            &&& after.key == flow.key
            &&& after.total == flow.total + 1
            &&& after.bytes == flow.bytes + event.len
            &&& after.first == flow.first
            &&& after.last == event.ts
            &&& after.iface == event.iface
            &&& after.alerted_at == flow.alerted_at
            &&& after.unicast <==> flow.unicast || unicast
            &&& flow.minutes.contains(minute) ==> after.minutes == flow.minutes
            &&& !flow.minutes.contains(minute) ==> after.minutes == flow.minutes.push(minute)
        }),
        flow.has_room(event.len),
{
    assert(event.ts as int / 60 == minute);
}

/// A flow opens with its first drop and holds it alone.
pub proof fn a_flow_opens_with_its_first_drop(event: EventView, unicast: bool, minute: i64)
    requires
        60 * minute <= event.ts < 60 * minute + 60,
    ensures
        ({
            let flow = SelfFlowView::opened(event, unicast).counted(event, unicast);
            &&& flow.key.dst == event.dst && flow.key.proto == event.proto && flow.key.dport
                == event.dport
            &&& flow.total == 1 && flow.bytes == event.len
            &&& flow.minutes == seq![minute]
            &&& flow.first == event.ts && flow.last == event.ts
            &&& flow.unicast == unicast
            &&& flow.alerted_at is None
            &&& flow.iface == event.iface
        }),
{
    assert(event.ts as int / 60 == minute);
    let flow = SelfFlowView::opened(event, unicast).counted(event, unicast);
    assert(flow.minutes =~= seq![minute]);
}

/// Traffic to a single host is due by its drops, and traffic to groups by the
/// minutes in which there was some.
pub proof fn single_hosts_count_by_drops_and_groups_by_minutes(
    flow: SelfFlowView,
    config: ConfigView,
)
    ensures
        flow.unicast ==> (flow.due(config) <==> flow.total >= config.self_unicast_min_events),
        !flow.unicast ==> (flow.due(config) <==> flow.minutes.len()
            >= config.self_min_active_minutes),
{
}

/// Minutes leave from the front once they began longer ago than the window.
pub proof fn minutes_older_than_the_window_leave(
    minutes: Seq<i64>,
    m: i64,
    now: i64,
    window: i64,
)
    ensures
        now - 60 * m > window ==> still_in_window(seq![m] + minutes, now, window)
            == still_in_window(minutes, now, window),
        now - 60 * m <= window ==> still_in_window(seq![m] + minutes, now, window) == seq![m]
            + minutes,
        still_in_window(Seq::empty(), now, window) == Seq::<i64>::empty(),
{
    let all = seq![m] + minutes;
    assert(all[0] == m);
    assert(all.skip(1) =~= minutes);
}

/// A flow with a minute in the window alerts exactly where it is due, its last
/// alert is a cooldown back, and nobody spoke of it within the cooldown. It is
/// kept then, and noted where it alerted; without a minute in the window it goes.
pub proof fn a_flow_alerts_when_it_is_due_and_cooled(
    flow: SelfFlowView,
    config: ConfigView,
    now: i64,
    spoken: Seq<(SelfKeyView, i64)>,
)
    requires
        config.self_window_secs <= 0x7fff_ffff_ffff_ffff,
        config.cooldown_secs <= 0x7fff_ffff_ffff_ffff,
        flow.minutes.len() > 0 ==> now - 60 * flow.minutes[0] <= config.self_window_secs,
    ensures
        ({
            let spoke = cooldown::held(spoken, flow.key, now, config.cooldown_secs);
            let ready = flow.minutes.len() > 0 && (if flow.unicast {
                flow.total >= config.self_unicast_min_events
            } else {
                flow.minutes.len() >= config.self_min_active_minutes
            }) && (flow.alerted_at is Some ==> now - flow.alerted_at.unwrap()
                >= config.cooldown_secs);
            &&& flow.alerts(config, now, spoken) <==> ready && !spoke
            &&& flow.minutes.len() == 0 ==> flow.judged(config, now, spoken) is None
            &&& flow.minutes.len() > 0 && ready && !spoke ==> flow.judged(config, now, spoken)
                == Some(SelfFlowView { alerted_at: Some(now), ..flow })
            &&& flow.minutes.len() > 0 && !(ready && !spoke) ==> flow.judged(config, now, spoken)
                == Some(flow)
        }),
{
    let kept = still_in_window(flow.minutes, now, config.self_window_secs as i64);
    assert(kept == flow.minutes);
    assert(flow.pruned(config, now) == flow);
}

/// The alert goes by destination, protocol and port, and pops up. Traffic to a
/// single host is critical and told by its drops; traffic to a group is not, and
/// is told by its minutes.
pub proof fn traffic_to_a_single_host_is_critical(flow: SelfFlowView, config: ConfigView, now: i64)
    ensures
        ({
            let a = flow.alert(config, now);
            let proto = text::lowercased(flow.key.proto);
            let port = text::dec(flow.key.dport as nat);
            &&& a.kind == "self-blocked"@
            &&& a.key == "self-"@ + flow.key.dst + "-"@ + proto + "-"@ + port
            &&& a.popup
            &&& flow.unicast ==> a.urgency == "critical"@ && a.title
                == "This host is sending blocked traffic to "@ + flow.key.dst
            &&& !flow.unicast ==> a.urgency == "normal"@ && a.title == "This host's own "@ + proto
                + "/"@ + port + " traffic is blocked"@
            &&& flow.unicast && now >= flow.first ==> a.body == text::dec(flow.total as nat)
                + " drops over "@ + alert::duration_text((now - flow.first) as nat) + " on "@
                + flow.iface + ", to "@ + proto + "/"@ + port
                + ".\nAddressed to one host rather than to a group."@
            &&& flow.unicast && now < flow.first ==> a.body == text::dec(flow.total as nat)
                + " drops over "@ + alert::duration_text(0) + " on "@ + flow.iface + ", to "@
                + proto + "/"@ + port + ".\nAddressed to one host rather than to a group."@
            &&& !flow.unicast ==> a.body == "Active in "@ + text::dec(flow.minutes.len())
                + " of the last "@ + text::dec((config.self_window_secs / 60) as nat)
                + " minutes on "@ + flow.iface
                + ".\nThe firewall is dropping multicast this host sends to "@ + flow.key.dst
                + "."@
            &&& flow.unicast ==> a.detail == alert::bytes_text(flow.bytes as nat)
                + " logged. Traffic this host sent should not be arriving on its own input path unless something is looping it back: a routing loop, a misconfigured tunnel, or a spoofed source address."@
            &&& !flow.unicast ==> a.detail == text::dec(flow.total as nat) + " drops, "@
                + alert::bytes_text(flow.bytes as nat)
                + ". Nothing external is involved — allow it, or stop whatever keeps sending it. Inbound replies to "@
                + proto + "/"@ + port + " take the same path, so they are being dropped too."@
        }),
{
}

/// The summary tells of every destination, the most active first, and there is
/// none without destinations.
pub proof fn the_most_active_destination_comes_first(flows: Seq<SelfFlowView>, i: int, j: int)
    requires
        flows.len() <= usize::MAX,
        forall|k: int| 0 <= k < flows.len() ==> (#[trigger] flows[k]).minutes.len() <= u64::MAX,
        0 <= i < j < flows.len(),
    ensures
        ({
            let ranks = order::order_of(activity_keys(flows));
            &&& ranks.len() == flows.len()
            &&& flows[ranks[i] as int].minutes.len() >= flows[ranks[j] as int].minutes.len()
            &&& summary_of(flows) == Some(
                text::join(ranks.map_values(|k: usize| flows[k as int].described()), "; "@),
            )
        }),
        summary_of(Seq::empty()) is None,
        flows[i].described() == flows[i].key.dst + " → "@ + text::lowercased(flows[i].key.proto)
            + "/"@ + text::dec(flows[i].key.dport as nat) + " ("@ + text::dec(
            flows[i].total as nat,
        ) + " drops in "@ + text::dec(flows[i].minutes.len()) + " active minute(s))"@,
{
    let keys = activity_keys(flows);
    order::an_order_ranks_every_position_once(keys);
    let ranks = order::order_of(keys);
    assert(order::comes_before(keys, ranks[i], ranks[j]));
    let p = ranks[i] as int;
    let q = ranks[j] as int;
    assert(flows[p].minutes.len() <= u64::MAX && flows[q].minutes.len() <= u64::MAX);
    assert(keys[p] == -(flows[p].minutes.len() as int));
    assert(keys[q] == -(flows[q].minutes.len() as int));
}

/// A flow has room for a drop exactly where neither of its counts overflows with
/// it.
pub proof fn a_flow_has_room_while_its_counts_do(flow: SelfFlowView, len: u64)
    ensures
        flow.has_room(len) <==> flow.total + 1 <= u64::MAX && flow.bytes + len <= u64::MAX,
{
}

} // verus!
