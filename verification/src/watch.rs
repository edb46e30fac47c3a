//! The daemon's own rounds: watching for IPv6, replaying history, and what is
//! due when.

use vstd::prelude::*;

use crate::addr;
use crate::addr::IpAddr;
use crate::alert;
use crate::alert::{Alert, AlertView};
use crate::config::{Config, ConfigView};
use crate::drops;
use crate::drops::{BlockEvent, EventView};
use crate::flows;
use crate::flows::{FactsView, FlowFacts, FlowTracker, TrackerView};
use crate::order;
use crate::order::stable_order;
use crate::sockets::{SocketTables, TablesView};
use crate::text;
use crate::text::{join_texts, sort_texts, split_lines, to_chars, to_text};

verus! {

// -- Timers -------------------------------------------------------------------

/// How often the journal records what this host is having dropped, whether or
/// not it is anywhere near alerting.
pub const SELF_SUMMARY_SECS: i64 = 3600;

/// How often the set of assigned IPv6 addresses is read again.
pub const IPV6_CHECK_SECS: i64 = 60;

/// Something that is done every so many seconds.
#[derive(Clone, Copy, Debug, PartialEq, Eq, Structural)]
pub struct Timer {
    pub last: i64,
    pub every: i64,
}

impl Timer {
    /// Is it time? If so, the term starts again.
    pub fn is_due(&mut self, now: i64) -> (due: bool)
        ensures
            due == (now - old(self).last >= old(self).every),
            *final(self) == if due {
                Timer { last: now, ..*old(self) }
            } else {
                *old(self)
            },
    {
        if (now as i128) - (self.last as i128) >= self.every as i128 {
            self.last = now;
            true
        } else {
            false
        }
    }
}

// -- IPv6 ---------------------------------------------------------------------

/// The texts of addresses.
pub open spec fn address_texts(addrs: Seq<IpAddr>) -> Seq<Seq<char>> {
    addrs.map_values(|ip: IpAddr| addr::ip_text(ip))
}

fn sorted_addresses(addrs: &Vec<IpAddr>) -> (out: Vec<String>)
    ensures
        text::sorted_from(text::texts(out@), address_texts(addrs@)),
        out@.len() == addrs@.len(),
{
    let mut listed: Vec<String> = Vec::new();
    let mut i: usize = 0;
    while i < addrs.len()
        invariant
            i <= addrs.len(),
            listed.len() == i,
            forall|k: int| 0 <= k < i ==> (#[trigger] listed@[k])@ == addr::ip_text(addrs@[k]),
        decreases addrs.len() - i,
    {
        listed.push(addrs[i].to_text());
        i = i + 1;
    }
    assert(text::texts(listed@) =~= address_texts(addrs@));
    let out = sort_texts(listed);
    proof {
        broadcast use vstd::seq_lib::group_to_multiset_ensures;

        assert(text::texts(out@).len() == text::texts(out@).to_multiset().len());
        assert(address_texts(addrs@).len() == address_texts(addrs@).to_multiset().len());
    }
    out
}

/// The text lists addresses in dictionary order, with commas between them.
pub open spec fn lists(s: Seq<char>, addrs: Seq<IpAddr>) -> bool {
    exists|sorted: Seq<Seq<char>>| #[trigger]
        text::sorted_from(sorted, address_texts(addrs)) && s == text::join(sorted, ", "@)
}

/// The IPv6 addresses assigned, in words.
pub fn describe_ipv6(addrs: &Vec<IpAddr>) -> (out: String)
    ensures
        addrs@.len() == 0 ==> out@ == "none assigned"@,
        addrs@.len() > 0 ==> lists(out@, addrs@),
{
    if addrs.len() == 0 {
        return "none assigned".to_owned();
    }
    let listed = sorted_addresses(addrs);
    let out = join_texts(&listed, ", ");
    assert(text::sorted_from(text::texts(listed@), address_texts(addrs@)));
    out
}

/// Those of the first `n` addresses that were not there before.
pub open spec fn appeared_upto(current: Seq<IpAddr>, seen: Seq<IpAddr>, n: int) -> Seq<IpAddr>
    decreases n,
{
    if n <= 0 {
        Seq::empty()
    } else if seen.contains(current[n - 1]) {
        appeared_upto(current, seen, n - 1)
    } else {
        appeared_upto(current, seen, n - 1).push(current[n - 1])
    }
}

pub open spec fn appeared(current: Seq<IpAddr>, seen: Seq<IpAddr>) -> Seq<IpAddr> {
    appeared_upto(current, seen, current.len() as int)
}

/// The alert about addresses that appeared, listed as `listing`.
pub open spec fn ipv6_alert(listing: Seq<char>) -> AlertView {
    AlertView {
        kind: "ipv6-active"@,
        key: "ipv6-active"@,
        title: "IPv6 addressing became active"@,
        body: "New IPv6 address(es): "@ + listing
            + ".\nSomething enabled IPv6 on an interface that did not have it. Where IPv6 is meant to stay off, the usual cause is NetworkManager rather than the kernel: a profile with ipv6.method=auto clears disable_ipv6 for its own interface, which overrides anything set in /etc/sysctl.d."@,
        detail: Seq::empty(),
        urgency: "normal"@,
        popup: true,
    }
}

fn holds_address(addrs: &Vec<IpAddr>, ip: IpAddr) -> (b: bool)
    ensures
        b == addrs@.contains(ip),
{
    let mut i: usize = 0;
    while i < addrs.len()
        invariant
            i <= addrs.len(),
            forall|k: int| 0 <= k < i ==> addrs@[k] != ip,
        decreases addrs.len() - i,
    {
        if addrs[i] == ip {
            return true;
        }
        i = i + 1;
    }
    false
}

/// Report IPv6 addresses that were not there last time, updating `seen`.
///
/// Only appearances are reported. Addresses going away is the interface being
/// reconfigured or unplugged, which says nothing about whether IPv6 is enabled.
pub fn check_ipv6(seen: &mut Vec<IpAddr>, current: Vec<IpAddr>) -> (out: Option<Alert>)
    ensures
        final(seen)@ == current@,
        ({
            let new = appeared(current@, old(seen)@);
            match out {
                None => new.len() == 0,
                Some(a) => new.len() > 0 && exists|listing: Seq<char>| #[trigger]
                    lists(listing, new) && a@ == ipv6_alert(listing),
            }
        }),
{
    let mut new: Vec<IpAddr> = Vec::new();
    let mut i: usize = 0;
    assert(new@ =~= appeared_upto(current@, seen@, 0));
    while i < current.len()
        invariant
            i <= current.len(),
            seen@ == old(seen)@,
            new@ == appeared_upto(current@, seen@, i as int),
        decreases current.len() - i,
    {
        if !holds_address(seen, current[i]) {
            new.push(current[i]);
        }
        i = i + 1;
    }
    let ghost model = appeared(current@, old(seen)@);
    assert(new@ == model);
    *seen = current;
    if new.len() == 0 {
        return None;
    }
    let listed = sorted_addresses(&new);
    let listing = join_texts(&listed, ", ");
    assert(text::sorted_from(text::texts(listed@), address_texts(new@)));
    assert(lists(listing@, model));
    let mut body: String = "New IPv6 address(es): ".to_owned();
    body.append(listing.as_str());
    body.append(
        ".\nSomething enabled IPv6 on an interface that did not have it. Where IPv6 is meant to stay off, the usual cause is NetworkManager rather than the kernel: a profile with ipv6.method=auto clears disable_ipv6 for its own interface, which overrides anything set in /etc/sysctl.d.",
    );
    let out = Alert {
        kind: "ipv6-active",
        key: "ipv6-active".to_owned(),
        title: "IPv6 addressing became active".to_owned(),
        body,
        detail: String::new(),
        urgency: "normal",
        popup: true,
    };
    assert(out@.detail =~= Seq::<char>::empty());
    Some(out)
}

// -- Replay -------------------------------------------------------------------

/// Something a replay found.
pub enum Finding {
    /// A blocked flow that was due, at the time it was.
    Flow { at: i64, facts: FlowFacts },
    /// An alert about this host's own blocked traffic.
    Own { at: i64, alert: Alert },
}

pub enum FindingView {
    Flow { at: i64, facts: FactsView },
    Own { at: i64, alert: AlertView },
}

impl View for Finding {
    type V = FindingView;

    open spec fn view(&self) -> FindingView {
        match *self {
            Finding::Flow { at, facts } => FindingView::Flow { at, facts: facts@ },
            Finding::Own { at, alert } => FindingView::Own { at, alert: alert@ },
        }
    }
}

pub open spec fn findings_view(v: Seq<Finding>) -> Seq<FindingView> {
    v.map_values(|f: Finding| f@)
}

/// What a tick found: the flows that are due, then the alerts about this host's
/// own traffic.
pub open spec fn tick_findings(
    at: i64,
    due: Seq<FactsView>,
    alerts: Seq<AlertView>,
) -> Seq<FindingView> {
    due.map_values(|facts: FactsView| FindingView::Flow { at, facts }) + alerts.map_values(
        |alert: AlertView| FindingView::Own { at, alert },
    )
}

/// A replay, some way through.
pub struct Replay {
    pub tracker: TrackerView,
    pub findings: Seq<FindingView>,
}

impl Replay {
    /// Judge everything as of `now`; what is found counts as found at `at`.
    pub open spec fn judged(
        self,
        config: ConfigView,
        now: i64,
        at: i64,
        tables: TablesView,
    ) -> Replay {
        let own = self.tracker.selfblock;
        Replay {
            tracker: self.tracker.ticked(config, now, tables),
            findings: self.findings + tick_findings(
                at,
                self.tracker.sweep(config, now, tables).due,
                own.raised(config, now),
            ),
        }
    }

    /// Replay one record at the time it was written. None where the counters
    /// cannot take it.
    pub open spec fn step(
        self,
        event: EventView,
        config: ConfigView,
        tables: TablesView,
    ) -> Option<Replay> {
        if self.tracker.has_room(event, config) {
            Some(
                (Replay { tracker: self.tracker.recorded(event, config), ..self }).judged(
                    config,
                    event.ts,
                    event.ts,
                    tables,
                ),
            )
        } else {
            None
        }
    }

    /// Replay the first `n` records.
    pub open spec fn upto(
        self,
        events: Seq<EventView>,
        config: ConfigView,
        tables: TablesView,
        n: int,
    ) -> Option<Replay>
        decreases n,
    {
        if n <= 0 {
            Some(self)
        } else {
            match self.upto(events, config, tables, n - 1) {
                Some(replay) => replay.step(events[n - 1], config, tables),
                None => None,
            }
        }
    }

    /// Replay all records, which are in the order of their times, and sweep once
    /// more a window after the last, so that flows that ended are reported as
    /// ended. None where the counters cannot take a record, or the time of the
    /// last sweep lies beyond any timestamp.
    pub open spec fn whole(
        self,
        events: Seq<EventView>,
        config: ConfigView,
        tables: TablesView,
    ) -> Option<Replay> {
        if events.len() == 0 {
            Some(self)
        } else {
            let last = events.last().ts;
            let end = last + (config.block_window_secs as i64) + 1;
            match self.upto(events, config, tables, events.len() as int) {
                Some(replay) => if i64::MIN <= end <= i64::MAX {
                    Some(replay.judged(config, end as i64, last, tables))
                } else {
                    None
                },
                None => None,
            }
        }
    }
}

/// The times of records.
pub open spec fn time_keys(events: Seq<EventView>) -> Seq<i128> {
    events.map_values(|e: EventView| e.ts as i128)
}

/// Records in the order of their times, those of the same time as they came.
pub open spec fn by_time(events: Seq<EventView>) -> Seq<EventView> {
    order::order_of(time_keys(events)).map_values(|i: usize| events[i as int])
}

fn copy_event(e: &BlockEvent) -> (out: BlockEvent)
    ensures
        out@ == e@,
{
    BlockEvent {
        ts: e.ts,
        iface: e.iface.clone(),
        src: e.src.clone(),
        dst: e.dst.clone(),
        proto: e.proto.clone(),
        sport: e.sport,
        dport: e.dport,
        len: e.len,
    }
}

/// Put records in the order of their times.
pub fn sort_events(events: &Vec<BlockEvent>) -> (out: Vec<BlockEvent>)
    ensures
        drops::events_view(out@) == by_time(drops::events_view(events@)),
        out@.len() == events@.len(),
{
    let ghost all = drops::events_view(events@);
    let mut keys: Vec<i128> = Vec::new();
    let mut i: usize = 0;
    while i < events.len()
        invariant
            i <= events.len(),
            keys.len() == i,
            forall|k: int| 0 <= k < i ==> #[trigger] keys@[k] == events@[k].ts as i128,
        decreases events.len() - i,
    {
        keys.push(events[i].ts as i128);
        i = i + 1;
    }
    assert(keys@ =~= time_keys(all));
    let order = stable_order(&keys);
    let mut out: Vec<BlockEvent> = Vec::new();
    let mut k: usize = 0;
    while k < order.len()
        invariant
            k <= order.len(),
            all == drops::events_view(events@),
            order@.len() == events@.len(),
            forall|j: int| 0 <= j < order@.len() ==> (#[trigger] order@[j]) < events@.len(),
            out.len() == k,
            forall|j: int| 0 <= j < k ==> (#[trigger] out@[j])@ == all[order@[j] as int],
        decreases order.len() - k,
    {
        assert(all[order@[k as int] as int] == events@[order@[k as int] as int]@);
        out.push(copy_event(&events[order[k]]));
        k = k + 1;
    }
    assert(drops::events_view(out@) =~= by_time(all));
    out
}

fn push_findings(findings: &mut Vec<Finding>, tick: flows::Tick, at: i64)
    ensures
        findings_view(final(findings)@) == findings_view(old(findings)@) + tick_findings(
            at,
            flows::facts_view(tick.due@),
            alert::alerts_of(tick.alerts@),
        ),
{
    let flows::Tick { mut due, mut alerts } = tick;
    let ghost start = findings_view(findings@);
    let ghost all_due = flows::facts_view(due@);
    let ghost all_alerts = alert::alerts_of(alerts@);
    let ghost flow_part = all_due.map_values(|facts: FactsView| FindingView::Flow { at, facts });
    let ghost own_part = all_alerts.map_values(|alert: AlertView| FindingView::Own { at, alert });
    let ghost mut n: int = 0;
    assert(findings_view(findings@) =~= start + flow_part.take(0));
    while due.len() > 0
        invariant
            0 <= n <= all_due.len(),
            flows::facts_view(due@) == all_due.skip(n),
            flow_part == all_due.map_values(
                |facts: FactsView| FindingView::Flow { at, facts },
            ),
            findings_view(findings@) == start + flow_part.take(n),
        decreases due.len(),
    {
        let ghost left = flows::facts_view(due@);
        assert(left.len() == due@.len());
        let facts = due.remove(0);
        assert(left[0] == facts@);
        assert(all_due[n] == facts@);
        assert(flows::facts_view(due@) =~= left.skip(1));
        let ghost before = findings_view(findings@);
        findings.push(Finding::Flow { at, facts });
        assert(findings_view(findings@) =~= before.push(flow_part[n]));
        proof {
            n = n + 1;
        }
        assert(findings_view(findings@) =~= start + flow_part.take(n));
        assert(flows::facts_view(due@) =~= all_due.skip(n));
    }
    assert(flows::facts_view(due@).len() == due@.len());
    assert(flow_part.take(n) =~= flow_part);
    let ghost middle = findings_view(findings@);
    let ghost mut m: int = 0;
    assert(middle =~= middle + own_part.take(0));
    while alerts.len() > 0
        invariant
            0 <= m <= all_alerts.len(),
            alert::alerts_of(alerts@) == all_alerts.skip(m),
            own_part == all_alerts.map_values(
                |alert: AlertView| FindingView::Own { at, alert },
            ),
            findings_view(findings@) == middle + own_part.take(m),
        decreases alerts.len(),
    {
        let ghost left = alert::alerts_of(alerts@);
        assert(left.len() == alerts@.len());
        let a = alerts.remove(0);
        assert(left[0] == a@);
        assert(all_alerts[m] == a@);
        assert(alert::alerts_of(alerts@) =~= left.skip(1));
        let ghost before = findings_view(findings@);
        findings.push(Finding::Own { at, alert: a });
        assert(findings_view(findings@) =~= before.push(own_part[m]));
        proof {
            m = m + 1;
        }
        assert(findings_view(findings@) =~= middle + own_part.take(m));
        assert(alert::alerts_of(alerts@) =~= all_alerts.skip(m));
    }
    assert(alert::alerts_of(alerts@).len() == alerts@.len());
    assert(own_part.take(m) =~= own_part);
    assert(findings_view(findings@) =~= start + (flow_part + own_part));
}

/// Run the blocked-flow detector over history, at the original times.
///
/// This is the honest way to tune thresholds: point it at a period when
/// something was actually wrong and confirm it fires, then at a normal day and
/// confirm it stays quiet. `tables` are today's sockets, the best answer there
/// is: history does not say who held a port. None where the counters cannot take
/// a record, or the time of the last sweep lies beyond any timestamp.
pub fn replay(
    tracker: &mut FlowTracker,
    events: &Vec<BlockEvent>,
    cfg: &Config,
    tables: &SocketTables,
) -> (out: Option<Vec<Finding>>)
    requires
        old(tracker).wf(),
    ensures
        final(tracker).wf(),
        ({
            let start = Replay { tracker: old(tracker)@, findings: Seq::empty() };
            match start.whole(by_time(drops::events_view(events@)), cfg@, tables@) {
                Some(end) => out is Some && findings_view(out.unwrap()@) == end.findings
                    && final(tracker)@ == end.tracker,
                None => out is None,
            }
        }),
{
    let sorted = sort_events(events);
    let ghost model = by_time(drops::events_view(events@));
    let ghost start = Replay { tracker: tracker@, findings: Seq::empty() };
    let mut findings: Vec<Finding> = Vec::new();
    assert(findings_view(findings@) =~= Seq::<FindingView>::empty());
    assert(model.len() == sorted@.len());
    if sorted.len() == 0 {
        return Some(findings);
    }
    let last: i64 = sorted[sorted.len() - 1].ts;
    assert(model.last() == sorted@[sorted@.len() - 1]@);
    let mut i: usize = 0;
    while i < sorted.len()
        invariant
            i <= sorted.len(),
            model == drops::events_view(sorted@),
            tracker.wf(),
            start.upto(model, cfg@, tables@, i as int) == Some(
                Replay { tracker: tracker@, findings: findings_view(findings@) },
            ),
            start == (Replay { tracker: old(tracker)@, findings: Seq::empty() }),
            model == by_time(drops::events_view(events@)),
        decreases sorted.len() - i,
    {
        assert(model[i as int] == sorted@[i as int]@);
        let ts: i64 = sorted[i].ts;
        if !tracker.has_room(&sorted[i], cfg) {
            proof {
                assert(start.upto(model, cfg@, tables@, i + 1) is None);
                lemma_a_failed_replay_stays_failed(
                    start,
                    model,
                    cfg@,
                    tables@,
                    i + 1,
                    model.len() as int,
                );
            }
            return None;
        }
        let _ = tracker.record(copy_event(&sorted[i]), cfg);
        let tick = tracker.tick_at(cfg, ts, tables);
        push_findings(&mut findings, tick, ts);
        i = i + 1;
    }
    let end: i128 = (last as i128) + ((cfg.block_window_secs as i64) as i128) + 1;
    if end < i64::MIN as i128 || end > i64::MAX as i128 {
        return None;
    }
    let tick = tracker.tick_at(cfg, end as i64, tables);
    push_findings(&mut findings, tick, last);
    Some(findings)
}

proof fn lemma_a_failed_replay_stays_failed(
    start: Replay,
    events: Seq<EventView>,
    config: ConfigView,
    tables: TablesView,
    n: int,
    m: int,
)
    requires
        0 <= n <= m,
        start.upto(events, config, tables, n) is None,
    ensures
        start.upto(events, config, tables, m) is None,
    decreases m - n,
{
    if n < m {
        lemma_a_failed_replay_stays_failed(start, events, config, tables, n, m - 1);
    }
}

impl FindingView {
    /// It is about answers to this host's own discovery.
    pub open spec fn is_reply(self) -> bool {
        match self {
            FindingView::Flow { facts, .. } => facts.discovery is Some,
            FindingView::Own { .. } => false,
        }
    }
}

/// Some finding is a discovery reply.
pub open spec fn any_reply(findings: Seq<FindingView>) -> bool {
    exists|i: int| 0 <= i < findings.len() && (#[trigger] findings[i]).is_reply()
}

/// Does a replay report discovery replies? They are judged against today's
/// sockets, so past rounds read as unsolicited more often than they were.
pub fn reports_discovery(findings: &Vec<Finding>) -> (b: bool)
    ensures
        b == any_reply(findings_view(findings@)),
{
    let mut i: usize = 0;
    while i < findings.len()
        invariant
            i <= findings.len(),
            forall|k: int| 0 <= k < i ==> !(#[trigger] findings@[k])@.is_reply(),
        decreases findings.len() - i,
    {
        let reply: bool = match &findings[i] {
            Finding::Flow { at: _, facts } => facts.discovery.is_some(),
            Finding::Own { .. } => false,
        };
        assert(reply == findings@[i as int]@.is_reply());
        if reply {
            assert(findings_view(findings@)[i as int].is_reply());
            return true;
        }
        i = i + 1;
    }
    false
}

/// The lines of an alert's body, each indented.
pub open spec fn indented_upto(lines: Seq<Seq<char>>, n: int) -> Seq<char>
    decreases n,
{
    if n <= 0 {
        Seq::empty()
    } else {
        indented_upto(lines, n - 1) + "      "@ + lines[n - 1] + "\n"@
    }
}

/// How a replay prints an alert it would have raised.
pub open spec fn printed(at: Seq<char>, alert: AlertView) -> Seq<char> {
    "  "@ + at + " ["@ + alert.kind + "] "@ + alert.title + "\n"@ + indented_upto(
        text::lines(alert.body),
        text::lines(alert.body).len() as int,
    )
}

/// An alert that a replay would have raised, with its time and its body's lines.
pub fn print_alert(at: &str, alert: &Alert) -> (out: String)
    ensures
        out@ == printed(at@, alert@),
{
    let lines = split_lines(&to_chars(alert.body.as_str()));
    let ghost model = text::lines(alert.body@);
    let mut body: String = String::new();
    let mut i: usize = 0;
    assert(body@ =~= indented_upto(model, 0));
    while i < lines.len()
        invariant
            i <= lines.len(),
            model == text::spelled(lines@),
            body@ == indented_upto(model, i as int),
        decreases lines.len() - i,
    {
        assert(model[i as int] == lines@[i as int]@);
        body.append("      ");
        body.append(to_text(&lines[i]).as_str());
        body.append("\n");
        i = i + 1;
    }
    let mut out: String = "  ".to_owned();
    out.append(at);
    out.append(" [");
    out.append(alert.kind);
    out.append("] ");
    out.append(alert.title.as_str());
    out.append("\n");
    out.append(body.as_str());
    out
}

// -- Selftest -----------------------------------------------------------------

/// The alert that tries out the notification path.
pub fn selftest_alert() -> (out: Alert)
    ensures
        out@ == (AlertView {
            kind: "selftest"@,
            key: "selftest"@,
            title: "packetminder selftest"@,
            body: "If you can read this, notifications and the event log both work."@,
            detail: Seq::empty(),
            urgency: "normal"@,
            popup: true,
        }),
{
    let out = Alert {
        kind: "selftest",
        key: "selftest".to_owned(),
        title: "packetminder selftest".to_owned(),
        body: "If you can read this, notifications and the event log both work.".to_owned(),
        detail: String::new(),
        urgency: "normal",
        popup: true,
    };
    assert(out@.detail =~= Seq::<char>::empty());
    out
}

// -- Laws ---------------------------------------------------------------------

proof fn lemma_nothing_new(current: Seq<IpAddr>, seen: Seq<IpAddr>, n: int)
    requires
        0 <= n <= current.len(),
        forall|i: int| 0 <= i < current.len() ==> seen.contains(#[trigger] current[i]),
    ensures
        appeared_upto(current, seen, n).len() == 0,
    decreases n,
{
    if n > 0 {
        lemma_nothing_new(current, seen, n - 1);
        assert(seen.contains(current[n - 1]));
    }
}

/// Only appearances are reported: addresses that go away, or stay, raise
/// nothing.
pub proof fn addresses_going_away_raise_nothing(current: Seq<IpAddr>, seen: Seq<IpAddr>)
    requires
        forall|i: int| 0 <= i < current.len() ==> seen.contains(#[trigger] current[i]),
    ensures
        appeared(current, seen).len() == 0,
{
    lemma_nothing_new(current, seen, current.len() as int);
}

/// Replaying uses the same rules as the running daemon: after its first `n`
/// records the tracker is what recording and judging them one by one at their
/// own times makes of it.
pub proof fn replay_is_the_daemon_on_old_times(
    start: Replay,
    events: Seq<EventView>,
    config: ConfigView,
    tables: TablesView,
    n: int,
)
    requires
        0 < n <= events.len(),
        start.upto(events, config, tables, n) is Some,
    ensures
        start.upto(events, config, tables, n - 1) is Some,
        start.upto(events, config, tables, n).unwrap().tracker == start.upto(
            events,
            config,
            tables,
            n - 1,
        ).unwrap().tracker.recorded(events[n - 1], config).ticked(
            config,
            events[n - 1].ts,
            tables,
        ),
{
}

/// A popup about addresses that appeared is two lines, where their listing is one.
pub proof fn a_popup_is_two_lines(listing: Seq<char>)
    requires
        alert::unbroken(listing),
    ensures
        alert::two_lines(ipv6_alert(listing).body),
{
    broadcast use alert::lemma_unbroken_sum;

    reveal_strlit("New IPv6 address(es): ");
    reveal_strlit(
        ".\nSomething enabled IPv6 on an interface that did not have it. Where IPv6 is meant to stay off, the usual cause is NetworkManager rather than the kernel: a profile with ipv6.method=auto clears disable_ipv6 for its own interface, which overrides anything set in /etc/sysctl.d.",
    );
    assert(alert::unbroken("New IPv6 address(es): "@)) by {
        reveal(alert::unbroken);
    }
    let end =
        ".\nSomething enabled IPv6 on an interface that did not have it. Where IPv6 is meant to stay off, the usual cause is NetworkManager rather than the kernel: a profile with ipv6.method=auto clears disable_ipv6 for its own interface, which overrides anything set in /etc/sysctl.d."@;
    assert(alert::two_lines(end)) by {
        reveal(alert::two_lines);
    }
    alert::lemma_two_lines_after_one("New IPv6 address(es): "@ + listing, end);
}

proof fn lemma_appeared(current: Seq<IpAddr>, seen: Seq<IpAddr>, n: int, ip: IpAddr)
    requires
        0 <= n <= current.len(),
    ensures
        appeared_upto(current, seen, n).contains(ip) <==> !seen.contains(ip) && exists|i: int|
            0 <= i < n && #[trigger] current[i] == ip,
    decreases n,
{
    if n > 0 {
        lemma_appeared(current, seen, n - 1, ip);
        let before = appeared_upto(current, seen, n - 1);
        let after = appeared_upto(current, seen, n);
        if !seen.contains(current[n - 1]) {
            assert(after == before.push(current[n - 1]));
            assert(after[before.len() as int] == current[n - 1]);
            if before.contains(ip) {
                let k = choose|k: int| 0 <= k < before.len() && before[k] == ip;
                assert(after[k] == ip);
            }
            if after.contains(ip) {
                let k = choose|k: int| 0 <= k < after.len() && after[k] == ip;
                if k < before.len() {
                    assert(before[k] == ip);
                }
            }
        }
    }
}

/// An address has appeared exactly where it is there now and was not before.
pub proof fn an_address_appears_where_it_was_not_before(
    current: Seq<IpAddr>,
    seen: Seq<IpAddr>,
    ip: IpAddr,
)
    ensures
        appeared(current, seen).contains(ip) <==> current.contains(ip) && !seen.contains(ip),
{
    lemma_appeared(current, seen, current.len() as int, ip);
    if current.contains(ip) {
        let i = choose|i: int| 0 <= i < current.len() && current[i] == ip;
        assert(current[i] == ip);
    }
}

/// The alert on IPv6 lists the new addresses, pops up once at normal urgency, and
/// has no further detail.
pub proof fn the_ipv6_alert_lists_the_new_addresses(listing: Seq<char>)
    ensures
        ipv6_alert(listing).kind == "ipv6-active"@,
        ipv6_alert(listing).key == "ipv6-active"@,
        ipv6_alert(listing).title == "IPv6 addressing became active"@,
        ipv6_alert(listing).body == "New IPv6 address(es): "@ + listing
            + ".\nSomething enabled IPv6 on an interface that did not have it. Where IPv6 is meant to stay off, the usual cause is NetworkManager rather than the kernel: a profile with ipv6.method=auto clears disable_ipv6 for its own interface, which overrides anything set in /etc/sysctl.d."@,
        ipv6_alert(listing).detail.len() == 0,
        ipv6_alert(listing).urgency == "normal"@,
        ipv6_alert(listing).popup,
{
}

/// The findings of a moment are its flows that are due, in order, and then the
/// alerts of this host's own, all under the same time. Only a flow that answers a
/// discovery is a reply.
pub proof fn the_findings_of_a_moment_are_its_flows_and_alerts(
    at: i64,
    due: Seq<FactsView>,
    alerts: Seq<AlertView>,
)
    ensures
        tick_findings(at, due, alerts).len() == due.len() + alerts.len(),
        forall|i: int|
            0 <= i < due.len() ==> #[trigger] tick_findings(at, due, alerts)[i] == (
            FindingView::Flow { at, facts: due[i] }),
        forall|i: int|
            0 <= i < alerts.len() ==> tick_findings(at, due, alerts)[due.len() + i] == (
            FindingView::Own { at, alert: #[trigger] alerts[i] }),
        forall|i: int|
            0 <= i < due.len() ==> (#[trigger] tick_findings(at, due, alerts)[i]).is_reply()
                == due[i].discovery is Some,
        forall|i: int|
            0 <= i < alerts.len() ==> !(FindingView::Own {
                at,
                alert: #[trigger] alerts[i],
            }).is_reply(),
{
}

/// An event of a replay is recorded and then judged at its own time; the findings
/// so far stay in front.
pub proof fn a_replayed_event_is_recorded_and_judged_at_its_time(
    replay: Replay,
    event: EventView,
    config: ConfigView,
    tables: TablesView,
)
    ensures
        replay.step(event, config, tables) is Some <==> replay.tracker.has_room(event, config),
        replay.tracker.has_room(event, config) ==> {
            let after = replay.step(event, config, tables).unwrap();
            let tracker = replay.tracker.recorded(event, config);
            &&& after.tracker == tracker.ticked(config, event.ts, tables)
            &&& after.findings == replay.findings + tick_findings(
                event.ts,
                tracker.sweep(config, event.ts, tables).due,
                tracker.selfblock.raised(config, event.ts),
            )
        },
{
}

/// A replay ends with one more look, a second past the last event's window, under
/// that event's time. One without events finds nothing.
pub proof fn a_replay_ends_with_a_look_past_the_window(
    replay: Replay,
    events: Seq<EventView>,
    config: ConfigView,
    tables: TablesView,
)
    requires
        events.len() > 0,
        config.block_window_secs <= 0x7fff_ffff_ffff_ffff,
        replay.upto(events, config, tables, events.len() as int) is Some,
        events.last().ts + config.block_window_secs + 1 <= 0x7fff_ffff_ffff_ffff,
    ensures
        replay.whole(Seq::empty(), config, tables) == Some(replay),
        replay.whole(events, config, tables) is Some,
        replay.whole(events, config, tables).unwrap().findings == replay.upto(
            events,
            config,
            tables,
            events.len() as int,
        ).unwrap().findings + tick_findings(
            events.last().ts,
            replay.upto(events, config, tables, events.len() as int).unwrap().tracker.sweep(
                config,
                (events.last().ts + config.block_window_secs + 1) as i64,
                tables,
            ).due,
            replay.upto(events, config, tables, events.len() as int).unwrap().tracker.selfblock.raised(
                config,
                (events.last().ts + config.block_window_secs + 1) as i64,
            ),
        ),
{
}

/// A finding is printed under its time with its kind in brackets and its title,
/// and each line of its body on a line of its own below, indented.
pub proof fn a_finding_is_printed_with_its_body_indented(
    at: Seq<char>,
    alert: AlertView,
    lines: Seq<Seq<char>>,
    line: Seq<char>,
)
    ensures
        printed(at, alert) == seq![' ', ' '] + at + seq![' ', '['] + alert.kind + seq![']', ' ']
            + alert.title + seq!['\n'] + indented_upto(
            text::lines(alert.body),
            text::lines(alert.body).len() as int,
        ),
        indented_upto(lines, 0).len() == 0,
        indented_upto(lines.push(line), lines.len() as int + 1) == indented_upto(
            lines,
            lines.len() as int,
        ) + seq![' ', ' ', ' ', ' ', ' ', ' '] + line + seq!['\n'],
{
    reveal_strlit("  ");
    reveal_strlit(" [");
    reveal_strlit("] ");
    reveal_strlit("\n");
    reveal_strlit("      ");
    assert("  "@ =~= seq![' ', ' '] && " ["@ =~= seq![' ', '['] && "] "@ =~= seq![']', ' ']);
    assert("\n"@ =~= seq!['\n'] && "      "@ =~= seq![' ', ' ', ' ', ' ', ' ', ' ']);
    lemma_indented_before(lines, line, lines.len() as int);
    assert(lines.push(line)[lines.len() as int] == line);
}

proof fn lemma_indented_before(lines: Seq<Seq<char>>, line: Seq<char>, n: int)
    requires
        n <= lines.len(),
    ensures
        indented_upto(lines.push(line), n) == indented_upto(lines, n),
    decreases n,
{
    if n > 0 {
        lemma_indented_before(lines, line, n - 1);
        assert(lines.push(line)[n - 1] == lines[n - 1]);
    }
}

/// Events are replayed by their times: each once, earlier ones first, and those of
/// one time in the order in which they were given.
pub proof fn events_are_replayed_by_their_times(events: Seq<EventView>, i: int, j: int)
    requires
        events.len() <= usize::MAX,
        0 <= i < j < events.len(),
    ensures
        by_time(events).len() == events.len(),
        by_time(events)[i].ts <= by_time(events)[j].ts,
{
    let keys = time_keys(events);
    order::an_order_ranks_every_position_once(keys);
    let ranks = order::order_of(keys);
    assert(order::comes_before(keys, ranks[i], ranks[j]));
}

/// Discovery replies are reported exactly where some finding is a flow that
/// answers a discovery.
pub proof fn replies_are_reported_where_a_flow_answers_a_discovery(findings: Seq<FindingView>)
    ensures
        any_reply(findings) <==> exists|i: int|
            0 <= i < findings.len() && ((#[trigger] findings[i]) matches FindingView::Flow {
                facts,
                ..
            } && facts.discovery is Some),
{
    if any_reply(findings) {
        let i = choose|i: int| 0 <= i < findings.len() && (#[trigger] findings[i]).is_reply();
        assert(findings[i].is_reply());
    }
}

/// Addresses are listed by their texts in dictionary order, with a comma and a
/// space between them.
pub proof fn addresses_are_listed_with_commas(
    s: Seq<char>,
    addrs: Seq<IpAddr>,
    texts: Seq<Seq<char>>,
)
    requires
        texts.len() == addrs.len(),
        forall|i: int| 0 <= i < addrs.len() ==> #[trigger] texts[i] == addr::ip_text(addrs[i]),
    ensures
        lists(s, addrs) <==> exists|sorted: Seq<Seq<char>>| #[trigger]
            text::sorted_from(sorted, texts) && s == text::join(sorted, seq![',', ' ']),
{
    reveal_strlit(", ");
    assert(", "@ =~= seq![',', ' ']);
    assert(address_texts(addrs) =~= texts);
}

} // verus!
