//! Alerts about blocked flows, put into words.

use vstd::prelude::*;

use crate::alert;
use crate::alert::{fmt_bytes, Alert, AlertView};
use crate::config::{Config, ConfigView, DiscoveryReplies};
use crate::discovery;
use crate::flows::{FactsView, FlowFacts};
use crate::names;
use crate::names::{borrow, NameBook};
use crate::text;
use crate::text::push_dec;

verus! {

// -- Names --------------------------------------------------------------------

/// What is known of the device an alert is about, at the time it is written.
pub struct Names {
    /// What the network calls it.
    pub who: String,
    /// What was worked out about it.
    pub derived: Option<String>,
    /// Which network it sits on, and who operates it.
    pub source: String,
    /// The local command that asked, where the flow answers a question.
    pub asker: Option<String>,
}

pub struct NamesView {
    pub who: Seq<char>,
    pub derived: Option<Seq<char>>,
    pub source: Seq<char>,
    pub asker: Option<Seq<char>>,
}

impl View for Names {
    type V = NamesView;

    open spec fn view(&self) -> NamesView {
        NamesView {
            who: self.who@,
            derived: names::spelled_or(self.derived),
            source: self.source@,
            asker: names::spelled_or(self.asker),
        }
    }
}

/// What a name book says of a flow's source.
pub open spec fn names_of(
    book: NameBook,
    facts: FactsView,
    mac: Option<Seq<char>>,
    asker: Option<Seq<char>>,
    now: i64,
) -> NamesView {
    NamesView {
        who: names::primary_of(facts.src, book.hostname(facts.src, now)),
        derived: names::derived_of(
            book.hostname(facts.src, now),
            book.name_chosen(facts.src, mac),
            book.vendor(mac),
        ),
        source: names::source_of(facts.nearby, mac, book.org(facts.src, now)),
        asker,
    }
}

/// What is known of a flow's source right now. Never a lookup, so it is safe on
/// the detector loop; `asker` is the command found to hold the asking socket,
/// where that was looked for.
pub fn names_known(
    book: &NameBook,
    facts: &FlowFacts,
    mac: Option<&str>,
    asker: Option<String>,
    now: i64,
) -> (out: Names)
    ensures
        out@ == names_of(
            *book,
            facts@,
            names::borrowed_or(mac),
            names::spelled_or(asker),
            now,
        ),
{
    let (who, derived) = book.identity_cached(facts.src.as_str(), mac, now);
    let source = book.describe_source_cached(facts.src.as_str(), facts.nearby, mac, now);
    Names { who, derived, source, asker }
}

/// What lookups outside found out about an address, as far as they were made.
pub struct Lookups {
    pub mac: Option<String>,
    /// What the resolver answered.
    pub hostname: Option<String>,
    /// What the hardware database lists.
    pub listed: Option<String>,
    /// What whois answered.
    pub org: Option<String>,
    /// The command found to hold the asking socket.
    pub asker: Option<String>,
}

/// What a name book says of a flow's source once lookups have been made.
pub open spec fn names_given(
    book: NameBook,
    facts: FactsView,
    found: Lookups,
    now: i64,
) -> NamesView {
    let mac = names::spelled_or(found.mac);
    let hostname = book.hostname_given(facts.src, names::spelled_or(found.hostname), now);
    NamesView {
        who: names::primary_of(facts.src, hostname),
        derived: names::derived_of(
            hostname,
            book.name_chosen(facts.src, mac),
            book.vendor_given(mac, names::spelled_or(found.listed)),
        ),
        source: names::source_of(
            facts.nearby,
            mac,
            book.org_given(facts.src, names::spelled_or(found.org), now),
        ),
        asker: names::spelled_or(found.asker),
    }
}

/// What is known of a flow's source once lookups have been made. What they found
/// is remembered.
pub fn names_resolved(book: &mut NameBook, facts: &FlowFacts, found: &Lookups, now: i64) -> (out:
    Names)
    requires
        old(book).wf(),
    ensures
        final(book).wf(),
        final(book).chosen == old(book).chosen,
        names::remembers(
            old(book).hostnames,
            final(book).hostnames,
            facts@.src,
            names::spelled_or(found.hostname),
            now,
            names::NAME_TTL_SECS,
        ),
        old(book).remembers_vendor(
            *final(book),
            names::spelled_or(found.mac),
            names::spelled_or(found.listed),
        ),
        if facts@.nearby {
            final(book).orgs == old(book).orgs
        } else {
            names::remembers(
                old(book).orgs,
                final(book).orgs,
                facts@.src,
                names::spelled_or(found.org),
                now,
                names::WHOIS_TTL_SECS,
            )
        },
        out@ == names_given(*old(book), facts@, *found, now),
{
    let mac = borrow(&found.mac);
    let (who, derived) = book.identity(
        facts.src.as_str(),
        mac,
        borrow(&found.hostname),
        borrow(&found.listed),
        now,
    );
    let source = book.describe_source(
        facts.src.as_str(),
        facts.nearby,
        mac,
        borrow(&found.org),
        now,
    );
    let asker: Option<String> = match &found.asker {
        Some(comm) => Some(comm.clone()),
        None => None,
    };
    Names { who, derived, source, asker }
}

// -- Words --------------------------------------------------------------------

/// What we worked out the device is, on a line of its own.
pub open spec fn first_line(derived: Option<Seq<char>>) -> Seq<char> {
    match derived {
        Some(d) => d + "\n"@,
        None => Seq::empty(),
    }
}

impl FactsView {
    /// The alert about a flow that nobody asked for.
    pub open spec fn blocked_alert(self, names: NamesView) -> AlertView {
        let proto = self.proto_lower;
        let port = text::dec(self.dport as nat);
        let logged = alert::bytes_text(self.bytes as nat)
            + " logged. ufw rate-limits its own logging, so the count measures persistence, not volume."@;
        let silence = if self.listening {
            Seq::empty()
        } else {
            " The sender is getting no feedback because the drop is silent."@
        };
        let origin = if self.sport == 0 {
            Seq::empty()
        } else {
            " from "@ + proto + "/"@ + text::dec(self.sport as nat)
        };
        AlertView {
            kind: "blocked-flow"@,
            key: "flow-"@ + self.src + "-"@ + proto + "-"@ + port,
            title: names.who + " — blocked "@ + proto + "/"@ + port,
            body: first_line(names.derived) + text::dec(self.total as nat) + " drops over "@
                + self.duration + " on "@ + self.iface + ", still going. "@ + if self.listening {
                "Something IS listening — the firewall is blocking it."@
            } else {
                "Nothing is listening."@
            },
            detail: logged + silence + " Source: "@ + names.source + origin,
            urgency: if self.listening || self.nearby {
                "critical"@
            } else {
                "normal"@
            },
            popup: true,
        }
    }

    /// The same flow, told the right way round: the source answered a question
    /// that this host asked, or claims to.
    pub open spec fn reply_alert(
        self,
        protocol: Seq<char>,
        names: NamesView,
        config: ConfigView,
    ) -> AlertView {
        let asked = match names.asker {
            Some(comm) => comm + " asked"@,
            None => "the asking socket is still open"@,
        };
        let explained = if self.corroborated {
            "Answering this host's own "@ + protocol + " discovery — "@ + asked
                + ", and the firewall dropped the reply. "@ + text::dec(self.total as nat)
                + " drops over "@ + self.duration + " on "@ + self.iface
                + ". Discovery is broken here, not an intrusion."@
        } else {
            "Shaped like an answer to this host's own "@ + protocol
                + " discovery, but nothing that could have received it is bound to "@
                + self.proto_lower + "/"@ + text::dec(self.dport as nat)
                + " — a peer can send from "@ + self.proto_lower + "/"@ + text::dec(
                self.sport as nat,
            ) + " without being asked anything. "@ + text::dec(self.total as nat) + " drops over "@
                + self.duration + " on "@ + self.iface + "."@
        };
        let origin = if self.sport == 0 {
            Seq::empty()
        } else {
            ":"@ + text::dec(self.sport as nat)
        };
        let doubt = if self.corroborated {
            Seq::empty()
        } else {
            " Reported at full urgency because it could not be corroborated: a source port is chosen by the sender, so with no socket bound on an address that could have received "@
                + self.dst
                + " there is nothing to distinguish a late reply from a peer that simply sent from that port. `discovery_replies = ignore` silences these too, at the cost of that distinction."@
        };
        AlertView {
            kind: "discovery-reply"@,
            key: "discovery-"@ + self.src + "-"@ + protocol,
            title: names.who + if self.corroborated {
                " — "@
            } else {
                " — unsolicited "@
            } + protocol + " reply dropped"@,
            body: first_line(names.derived) + explained,
            detail: alert::bytes_text(self.bytes as nat)
                + " logged. The query went out to a multicast group and the answer came back unicast from "@
                + self.src + origin
                + ", so conntrack has no entry to match it against and a default-deny input chain drops it. To make discovery work, allow inbound udp from the local subnet; to make it stop, turn discovery off in the program that asks."@
                + doubt + " Source: "@ + names.source,
            urgency: if self.corroborated {
                "low"@
            } else {
                "normal"@
            },
            popup: !self.corroborated || config.discovery_replies is Alert,
        }
    }

    /// The alert about a flow.
    pub open spec fn alert(self, names: NamesView, config: ConfigView) -> AlertView {
        match self.discovery {
            Some(protocol) => self.reply_alert(protocol, names, config),
            None => self.blocked_alert(names),
        }
    }
}

fn start_body(derived: &Option<String>) -> (out: String)
    ensures
        out@ == first_line(names::spelled_or(*derived)),
{
    match derived {
        Some(d) => {
            let mut out: String = d.clone();
            out.append("\n");
            out
        },
        None => {
            let out: String = String::new();
            assert(out@ =~= Seq::<char>::empty());
            out
        },
    }
}

/// Build the alert about a flow from gathered facts and what is known of its
/// source.
pub fn compose_alert(facts: &FlowFacts, names: &Names, cfg: &Config) -> (out: Alert)
    ensures
        out@ == facts@.alert(names@, cfg@),
{
    match facts.discovery {
        Some(protocol) => {
            return compose_discovery_alert(facts, protocol, names, cfg);
        },
        None => {},
    }
    let proto = facts.proto_lower.as_str();

    let mut body = start_body(&names.derived);
    push_dec(&mut body, facts.total);
    body.append(" drops over ");
    body.append(facts.duration.as_str());
    body.append(" on ");
    body.append(facts.iface.as_str());
    body.append(", still going. ");
    if facts.listening {
        body.append("Something IS listening — the firewall is blocking it.");
    } else {
        body.append("Nothing is listening.");
    }

    let mut detail = fmt_bytes(facts.bytes);
    detail.append(
        " logged. ufw rate-limits its own logging, so the count measures persistence, not volume.",
    );
    if !facts.listening {
        detail.append(" The sender is getting no feedback because the drop is silent.");
    }
    detail.append(" Source: ");
    detail.append(names.source.as_str());
    if facts.sport != 0 {
        detail.append(" from ");
        detail.append(proto);
        detail.append("/");
        push_dec(&mut detail, facts.sport as u64);
    }

    let mut key: String = "flow-".to_owned();
    key.append(facts.src.as_str());
    key.append("-");
    key.append(proto);
    key.append("-");
    push_dec(&mut key, facts.dport as u64);

    let mut title: String = names.who.clone();
    title.append(" — blocked ");
    title.append(proto);
    title.append("/");
    push_dec(&mut title, facts.dport as u64);

    let urgency: &'static str = if facts.listening || facts.nearby {
        "critical"
    } else {
        "normal"
    };
    let out = Alert { kind: "blocked-flow", key, title, body, detail, urgency, popup: true };
    assert(out@.detail =~= facts@.blocked_alert(names@).detail);
    out
}

fn reply_body(facts: &FlowFacts, protocol: &'static str, names: &Names) -> (out: String)
    ensures
        forall|config: ConfigView|
            out@ == (#[trigger] facts@.reply_alert(protocol@, names@, config)).body,
{
    let mut explained: String = String::new();
    if facts.corroborated {
        explained.append("Answering this host's own ");
        explained.append(protocol);
        explained.append(" discovery — ");
        match &names.asker {
            Some(comm) => {
                let mut asked: String = comm.clone();
                asked.append(" asked");
                explained.append(asked.as_str());
            },
            None => {
                explained.append("the asking socket is still open");
            },
        }
        explained.append(", and the firewall dropped the reply. ");
        push_dec(&mut explained, facts.total);
        explained.append(" drops over ");
        explained.append(facts.duration.as_str());
        explained.append(" on ");
        explained.append(facts.iface.as_str());
        explained.append(". Discovery is broken here, not an intrusion.");
    } else {
        explained.append("Shaped like an answer to this host's own ");
        explained.append(protocol);
        explained.append(" discovery, but nothing that could have received it is bound to ");
        explained.append(facts.proto_lower.as_str());
        explained.append("/");
        push_dec(&mut explained, facts.dport as u64);
        explained.append(" — a peer can send from ");
        explained.append(facts.proto_lower.as_str());
        explained.append("/");
        push_dec(&mut explained, facts.sport as u64);
        explained.append(" without being asked anything. ");
        push_dec(&mut explained, facts.total);
        explained.append(" drops over ");
        explained.append(facts.duration.as_str());
        explained.append(" on ");
        explained.append(facts.iface.as_str());
        explained.append(".");
    }
    let mut out = start_body(&names.derived);
    out.append(explained.as_str());
    assert forall|config: ConfigView|
        out@ == (#[trigger] facts@.reply_alert(protocol@, names@, config)).body by {
        assert(out@ =~= facts@.reply_alert(protocol@, names@, config).body);
    }
    out
}

fn reply_detail(facts: &FlowFacts, protocol: &'static str, names: &Names) -> (out: String)
    ensures
        forall|config: ConfigView|
            out@ == (#[trigger] facts@.reply_alert(protocol@, names@, config)).detail,
{
    let mut out = fmt_bytes(facts.bytes);
    out.append(
        " logged. The query went out to a multicast group and the answer came back unicast from ",
    );
    out.append(facts.src.as_str());
    if facts.sport != 0 {
        out.append(":");
        push_dec(&mut out, facts.sport as u64);
    }
    out.append(
        ", so conntrack has no entry to match it against and a default-deny input chain drops it. To make discovery work, allow inbound udp from the local subnet; to make it stop, turn discovery off in the program that asks.",
    );
    if !facts.corroborated {
        out.append(
            " Reported at full urgency because it could not be corroborated: a source port is chosen by the sender, so with no socket bound on an address that could have received ",
        );
        out.append(facts.dst.as_str());
        out.append(
            " there is nothing to distinguish a late reply from a peer that simply sent from that port. `discovery_replies = ignore` silences these too, at the cost of that distinction.",
        );
    }
    out.append(" Source: ");
    out.append(names.source.as_str());
    assert forall|config: ConfigView|
        out@ == (#[trigger] facts@.reply_alert(protocol@, names@, config)).detail by {
        assert(out@ =~= facts@.reply_alert(protocol@, names@, config).detail);
    }
    out
}

/// The alert about a flow that answers this host's own discovery.
///
/// Corroborated, it is a standing fact about traffic this host solicited: worth
/// recording every time and worth interrupting for approximately never.
/// Uncorroborated, it is only the sender's word that this answers anything, and
/// a dismissal nothing could substantiate does not earn silence.
pub fn compose_discovery_alert(
    facts: &FlowFacts,
    protocol: &'static str,
    names: &Names,
    cfg: &Config,
) -> (out: Alert)
    ensures
        out@ == facts@.reply_alert(protocol@, names@, cfg@),
{
    let body = reply_body(facts, protocol, names);
    let detail = reply_detail(facts, protocol, names);
    let mut key: String = "discovery-".to_owned();
    key.append(facts.src.as_str());
    key.append("-");
    key.append(protocol);

    let mut title: String = names.who.clone();
    if facts.corroborated {
        title.append(" — ");
    } else {
        title.append(" — unsolicited ");
    }
    title.append(protocol);
    title.append(" reply dropped");

    let urgency: &'static str = if facts.corroborated {
        "low"
    } else {
        "normal"
    };
    let popup: bool = !facts.corroborated || cfg.discovery_replies == DiscoveryReplies::Alert;
    Alert { kind: "discovery-reply", key, title, body, detail, urgency, popup }
}

// -- Enrichment ---------------------------------------------------------------

/// The most lookups in the background at one time. A port sweep can push many
/// flows over the threshold in one tick, and refinements do not get to exhaust
/// threads.
pub const MAX_ENRICHERS: usize = 8;

/// One more lookup has a place in the background.
pub open spec fn has_a_place(in_flight: usize) -> bool {
    in_flight < MAX_ENRICHERS
}

/// May one more alert be enriched in the background? Past the limit it is
/// skipped, not queued: the immediate alert was already complete.
pub fn may_enrich(in_flight: usize) -> (b: bool)
    ensures
        b == has_a_place(in_flight),
{
    in_flight < MAX_ENRICHERS
}

// -- Laws ---------------------------------------------------------------------

/// The dedup key of an alert is made of the address and never of a resolved
/// name, so the popup still replaces its predecessor when a name starts or stops
/// resolving.
pub proof fn the_dedup_key_ignores_names(
    facts: FactsView,
    names: NamesView,
    later: NamesView,
    config: ConfigView,
)
    ensures
        facts.alert(names, config).key == facts.alert(later, config).key,
        facts.alert(names, config).urgency == facts.alert(later, config).urgency,
        facts.alert(names, config).popup == facts.alert(later, config).popup,
{
}

/// The dedup key of a discovery alert does not hold the destination port, which
/// is a fresh one every round: each round replaces the one before.
pub proof fn discovery_rounds_share_a_dedup_key(
    round: FactsView,
    next: FactsView,
    names: NamesView,
    config: ConfigView,
)
    requires
        round.discovery is Some,
        next.discovery == round.discovery,
        next.src == round.src,
    ensures
        round.alert(names, config).key == next.alert(names, config).key,
{
}

/// Shape alone silences nothing: only a reply that a local socket corroborates
/// can be quiet, and it is quiet unless popups were asked for.
pub proof fn only_a_corroborated_reply_is_quiet(
    facts: FactsView,
    names: NamesView,
    config: ConfigView,
)
    ensures
        !facts.alert(names, config).popup <==> (facts.discovery is Some && facts.corroborated
            && !(config.discovery_replies is Alert)),
{
}

/// Quiet suppresses the interrupt, not the record: how replies to discovery are
/// to be reported changes nothing about an alert but whether it pops up.
pub proof fn quiet_changes_nothing_but_the_popup(
    facts: FactsView,
    names: NamesView,
    a: ConfigView,
    b: ConfigView,
)
    ensures
        facts.alert(names, a) == (AlertView {
            popup: facts.alert(names, a).popup,
            ..facts.alert(names, b)
        }),
{
}

/// An alert about a source of which everything was known reads the same after
/// looking names up, so there is nothing to report again.
pub proof fn a_complete_alert_is_not_repeated(
    book: NameBook,
    facts: FactsView,
    found: Lookups,
    now: i64,
    config: ConfigView,
)
    requires
        names::fresh(book.hostnames@, facts.src, now, names::NAME_TTL_SECS) is Some,
        facts.nearby || names::fresh(book.orgs@, facts.src, now, names::WHOIS_TTL_SECS) is Some,
        names::oui_of(names::spelled_or(found.mac)) is Some ==> book.vendors@.dom().contains(
            names::oui_of(names::spelled_or(found.mac)).unwrap(),
        ),
        found.asker is None,
    ensures
        facts.alert(names_given(book, facts, found, now), config) == facts.alert(
            names_of(book, facts, names::spelled_or(found.mac), None, now),
            config,
        ),
{
}

proof fn lemma_flow_words_are_unbroken()
    ensures
        alert::unbroken(" drops over "@),
        alert::unbroken(" on "@),
        alert::unbroken(", still going. "@),
        alert::unbroken("Something IS listening — the firewall is blocking it."@),
        alert::unbroken("Nothing is listening."@),
{
    reveal(alert::unbroken);
    reveal_strlit(" drops over ");
    reveal_strlit(" on ");
    reveal_strlit(", still going. ");
    reveal_strlit("Something IS listening — the firewall is blocking it.");
    reveal_strlit("Nothing is listening.");
}

proof fn lemma_reply_words_are_unbroken()
    ensures
        alert::unbroken("Answering this host's own "@),
        alert::unbroken(" discovery — "@),
        alert::unbroken(" asked"@),
        alert::unbroken("the asking socket is still open"@),
        alert::unbroken(", and the firewall dropped the reply. "@),
        alert::unbroken(". Discovery is broken here, not an intrusion."@),
        alert::unbroken("Shaped like an answer to this host's own "@),
        alert::unbroken(" discovery, but nothing that could have received it is bound to "@),
        alert::unbroken("/"@),
        alert::unbroken(" — a peer can send from "@),
        alert::unbroken(" without being asked anything. "@),
        alert::unbroken("."@),
{
    reveal(alert::unbroken);
    reveal_strlit("Answering this host's own ");
    reveal_strlit(" discovery — ");
    reveal_strlit(" asked");
    reveal_strlit("the asking socket is still open");
    reveal_strlit(", and the firewall dropped the reply. ");
    reveal_strlit(". Discovery is broken here, not an intrusion.");
    reveal_strlit("Shaped like an answer to this host's own ");
    reveal_strlit(" discovery, but nothing that could have received it is bound to ");
    reveal_strlit("/");
    reveal_strlit(" — a peer can send from ");
    reveal_strlit(" without being asked anything. ");
    reveal_strlit(".");
}

/// A popup about a flow is two lines at most, where nothing it is made of breaks
/// a line.
pub proof fn a_popup_is_two_lines(facts: FactsView, names: NamesView, config: ConfigView)
    requires
        names.derived is Some ==> alert::unbroken(names.derived.unwrap()),
        names.asker is Some ==> alert::unbroken(names.asker.unwrap()),
        facts.discovery is Some ==> alert::unbroken(facts.discovery.unwrap()),
        alert::unbroken(facts.proto_lower),
        alert::unbroken(facts.duration),
        alert::unbroken(facts.iface),
    ensures
        alert::two_lines(facts.alert(names, config).body),
{
    broadcast use alert::lemma_unbroken_sum;
    broadcast use alert::lemma_two_lines_sum;
    broadcast use alert::lemma_number_is_unbroken;

    reveal_strlit("\n");
    let start = first_line(names.derived);
    assert(alert::two_lines("\n"@) && alert::two_lines(Seq::empty())) by {
        reveal(alert::two_lines);
    }
    if names.derived is Some {
        alert::lemma_two_lines_after_one(names.derived.unwrap(), "\n"@);
    }
    assert(alert::two_lines(start));
    lemma_flow_words_are_unbroken();
    lemma_reply_words_are_unbroken();
}

/// A blocked flow goes by its sender, protocol and port. It is critical exactly
/// where something is listening or the sender is near, and its text says which of
/// the two it is.
pub proof fn a_blocked_flow_is_critical_where_it_matters(facts: FactsView, names: NamesView)
    ensures
        ({
            let a = facts.blocked_alert(names);
            let port = text::dec(facts.dport as nat);
            let named = match names.derived {
                Some(d) => d + "\n"@,
                None => Seq::empty(),
            };
            let counted = named + text::dec(facts.total as nat) + " drops over "@ + facts.duration
                + " on "@ + facts.iface + ", still going. "@;
            &&& a.kind == "blocked-flow"@
            &&& a.key == "flow-"@ + facts.src + "-"@ + facts.proto_lower + "-"@ + port
            &&& a.title == names.who + " — blocked "@ + facts.proto_lower + "/"@ + port
            &&& a.popup
            &&& facts.listening || facts.nearby ==> a.urgency == "critical"@
            &&& !facts.listening && !facts.nearby ==> a.urgency == "normal"@
            &&& facts.listening ==> a.body == counted
                + "Something IS listening — the firewall is blocking it."@
            &&& !facts.listening ==> a.body == counted + "Nothing is listening."@
        }),
{
}

/// The detail of a blocked flow says how much was logged, that the sender gets no
/// answer where nothing listens, where the flow comes from and, where it is known,
/// from which port.
pub proof fn the_detail_of_a_flow_names_its_source(facts: FactsView, names: NamesView)
    ensures
        ({
            let logged = alert::bytes_text(facts.bytes as nat)
                + " logged. ufw rate-limits its own logging, so the count measures persistence, not volume."@;
            let silent = " The sender is getting no feedback because the drop is silent."@;
            let source = " Source: "@ + names.source;
            let from = " from "@ + facts.proto_lower + "/"@ + text::dec(facts.sport as nat);
            let a = facts.blocked_alert(names);
            &&& facts.listening && facts.sport == 0 ==> a.detail == logged + source
            &&& facts.listening && facts.sport != 0 ==> a.detail == logged + source + from
            &&& !facts.listening && facts.sport == 0 ==> a.detail == logged + silent + source
            &&& !facts.listening && facts.sport != 0 ==> a.detail == logged + silent + source + from
        }),
{
    let logged = alert::bytes_text(facts.bytes as nat)
        + " logged. ufw rate-limits its own logging, so the count measures persistence, not volume."@;
    let silent = " The sender is getting no feedback because the drop is silent."@;
    let source = " Source: "@ + names.source;
    let from = " from "@ + facts.proto_lower + "/"@ + text::dec(facts.sport as nat);
    let a = facts.blocked_alert(names);
    if facts.listening && facts.sport == 0 {
        assert(a.detail =~= logged + source);
    }
    if facts.listening && facts.sport != 0 {
        assert(a.detail =~= logged + source + from);
    }
    if !facts.listening && facts.sport == 0 {
        assert(a.detail =~= logged + silent + source);
    }
    if !facts.listening && facts.sport != 0 {
        assert(a.detail =~= logged + silent + source + from);
    }
}

/// A discovery reply goes by its sender and protocol. Where a socket vouches for
/// it, it is low, says so, names who asked, and pops up only on request; where
/// none does it is normal, says that nothing asked, and always pops up.
pub proof fn a_reply_is_quiet_where_a_socket_vouches_for_it(
    facts: FactsView,
    protocol: Seq<char>,
    names: NamesView,
    config: ConfigView,
)
    ensures
        ({
            let a = facts.reply_alert(protocol, names, config);
            let named = match names.derived {
                Some(d) => d + "\n"@,
                None => Seq::empty(),
            };
            let counted = text::dec(facts.total as nat) + " drops over "@ + facts.duration
                + " on "@ + facts.iface;
            &&& a.kind == "discovery-reply"@
            &&& a.key == "discovery-"@ + facts.src + "-"@ + protocol
            &&& facts.corroborated ==> a.urgency == "low"@ && a.title == names.who + " — "@
                + protocol + " reply dropped"@ && (a.popup <==> config.discovery_replies is Alert)
            &&& !facts.corroborated ==> a.urgency == "normal"@ && a.title == names.who
                + " — unsolicited "@ + protocol + " reply dropped"@ && a.popup
            &&& facts.corroborated ==> a.body == named + ("Answering this host's own "@ + protocol
                + " discovery — "@ + (match names.asker {
                Some(comm) => comm + " asked"@,
                None => "the asking socket is still open"@,
            }) + ", and the firewall dropped the reply. "@ + counted
                + ". Discovery is broken here, not an intrusion."@)
            &&& !facts.corroborated ==> a.body == named + (
            "Shaped like an answer to this host's own "@ + protocol
                + " discovery, but nothing that could have received it is bound to "@
                + facts.proto_lower + "/"@ + text::dec(facts.dport as nat)
                + " — a peer can send from "@ + facts.proto_lower + "/"@ + text::dec(
                facts.sport as nat,
            ) + " without being asked anything. "@ + counted + "."@)
        }),
{
    let a = facts.reply_alert(protocol, names, config);
    let named = first_line(names.derived);
    let counted = text::dec(facts.total as nat) + " drops over "@ + facts.duration + " on "@
        + facts.iface;
    if facts.corroborated {
        assert(a.body =~= named + ("Answering this host's own "@ + protocol + " discovery — "@ + (
        match names.asker {
            Some(comm) => comm + " asked"@,
            None => "the asking socket is still open"@,
        }) + ", and the firewall dropped the reply. "@ + counted
            + ". Discovery is broken here, not an intrusion."@));
    } else {
        assert(a.body =~= named + ("Shaped like an answer to this host's own "@ + protocol
            + " discovery, but nothing that could have received it is bound to "@
            + facts.proto_lower + "/"@ + text::dec(facts.dport as nat)
            + " — a peer can send from "@ + facts.proto_lower + "/"@ + text::dec(
            facts.sport as nat,
        ) + " without being asked anything. "@ + counted + "."@));
    }
}

/// The detail of a reply says where the answer came from, with its port where it
/// is known, and why it was dropped; it explains its urgency exactly where no
/// socket vouches for it, and ends with the source.
pub proof fn the_detail_of_a_reply_explains_the_drop(
    facts: FactsView,
    protocol: Seq<char>,
    names: NamesView,
    config: ConfigView,
)
    ensures
        ({
            let a = facts.reply_alert(protocol, names, config);
            let front = alert::bytes_text(facts.bytes as nat)
                + " logged. The query went out to a multicast group and the answer came back unicast from "@
                + facts.src;
            let port = ":"@ + text::dec(facts.sport as nat);
            let why =
                ", so conntrack has no entry to match it against and a default-deny input chain drops it. To make discovery work, allow inbound udp from the local subnet; to make it stop, turn discovery off in the program that asks."@;
            let doubt =
                " Reported at full urgency because it could not be corroborated: a source port is chosen by the sender, so with no socket bound on an address that could have received "@
                + facts.dst
                + " there is nothing to distinguish a late reply from a peer that simply sent from that port. `discovery_replies = ignore` silences these too, at the cost of that distinction."@;
            let source = " Source: "@ + names.source;
            &&& facts.corroborated && facts.sport != 0 ==> a.detail == front + port + why + source
            &&& facts.corroborated && facts.sport == 0 ==> a.detail == front + why + source
            &&& !facts.corroborated && facts.sport != 0 ==> a.detail == front + port + why + doubt
                + source
            &&& !facts.corroborated && facts.sport == 0 ==> a.detail == front + why + doubt + source
        }),
{
    let a = facts.reply_alert(protocol, names, config);
    let front = alert::bytes_text(facts.bytes as nat)
        + " logged. The query went out to a multicast group and the answer came back unicast from "@
        + facts.src;
    let port = ":"@ + text::dec(facts.sport as nat);
    let why =
        ", so conntrack has no entry to match it against and a default-deny input chain drops it. To make discovery work, allow inbound udp from the local subnet; to make it stop, turn discovery off in the program that asks."@;
    let doubt =
        " Reported at full urgency because it could not be corroborated: a source port is chosen by the sender, so with no socket bound on an address that could have received "@
        + facts.dst
        + " there is nothing to distinguish a late reply from a peer that simply sent from that port. `discovery_replies = ignore` silences these too, at the cost of that distinction."@;
    let source = " Source: "@ + names.source;
    if facts.corroborated && facts.sport != 0 {
        assert(a.detail =~= front + port + why + source);
    }
    if facts.corroborated && facts.sport == 0 {
        assert(a.detail =~= front + why + source);
    }
    if !facts.corroborated && facts.sport != 0 {
        assert(a.detail =~= front + port + why + doubt + source);
    }
    if !facts.corroborated && facts.sport == 0 {
        assert(a.detail =~= front + why + doubt + source);
    }
}

/// A flow that answers a discovery is reported as a reply, and any other as
/// blocked.
pub proof fn a_flow_is_reported_as_what_it_is(
    facts: FactsView,
    names: NamesView,
    config: ConfigView,
)
    ensures
        facts.discovery is Some ==> facts.alert(names, config).kind == "discovery-reply"@
            && facts.alert(names, config) == facts.reply_alert(
            facts.discovery.unwrap(),
            names,
            config,
        ),
        facts.discovery is None ==> facts.alert(names, config).kind == "blocked-flow"@
            && facts.alert(names, config) == facts.blocked_alert(names),
{
}

/// The sender is named by its hostname and address, described by what else is
/// known of it, and placed by its hardware address where it is near and by its
/// provider where it is not. A book that holds an answer still believed is not
/// asked again: a lookup of the moment gives way to it.
pub proof fn an_answer_on_record_comes_before_a_lookup(
    book: NameBook,
    facts: FactsView,
    found: Lookups,
    now: i64,
)
    requires
        names::fresh(book.hostnames@, facts.src, now, 300) is Some,
        names::fresh(book.orgs@, facts.src, now, 3600) is Some,
    ensures
        names_given(book, facts, found, now).who == names_of(
            book,
            facts,
            names::spelled_or(found.mac),
            names::spelled_or(found.asker),
            now,
        ).who,
        names_given(book, facts, found, now).source == names_of(
            book,
            facts,
            names::spelled_or(found.mac),
            names::spelled_or(found.asker),
            now,
        ).source,
        names_given(book, facts, found, now).asker == names::spelled_or(found.asker),
        book.hostname(facts.src, now) is Some ==> names_given(book, facts, found, now).who
            == book.hostname(facts.src, now).unwrap() + " ("@ + facts.src + ")"@,
        book.hostname(facts.src, now) is None ==> names_given(book, facts, found, now).who
            == facts.src,
{
}

/// Where the book holds no answer still believed, the lookup of the moment names
/// the sender.
pub proof fn a_lookup_names_a_sender_not_on_record(
    book: NameBook,
    facts: FactsView,
    found: Lookups,
    now: i64,
)
    requires
        names::fresh(book.hostnames@, facts.src, now, 300) is None,
        names::fresh(book.orgs@, facts.src, now, 3600) is None,
    ensures
        ({
            let names = names_given(book, facts, found, now);
            &&& found.hostname is Some ==> names.who == found.hostname.unwrap()@ + " ("@ + facts.src
                + ")"@
            &&& found.hostname is None ==> names.who == facts.src
            &&& facts.nearby && found.mac is Some ==> names.source == "LAN, "@ + found.mac.unwrap()@
            &&& facts.nearby && found.mac is None ==> names.source == "LAN"@
            &&& !facts.nearby && found.org is Some ==> names.source == "internet, "@
                + found.org.unwrap()@
            &&& !facts.nearby && found.org is None ==> names.source == "internet"@
        }),
{
}

/// Eight lookups have a place in the background, and the ninth has none.
pub proof fn eight_lookups_have_a_place(in_flight: usize)
    ensures
        has_a_place(in_flight) <==> in_flight <= 7,
{
}

/// A sender is described by the name chosen for it and by its vendor, each where
/// the book has it; who asked is passed on.
pub proof fn a_sender_is_described_by_what_the_book_has(
    book: NameBook,
    facts: FactsView,
    mac: Option<Seq<char>>,
    asker: Option<Seq<char>>,
    now: i64,
)
    ensures
        ({
            let names = names_of(book, facts, mac, asker, now);
            let chosen = book.name_chosen(facts.src, mac);
            let vendor = book.vendor(mac);
            &&& names.asker == asker
            &&& vendor is None ==> names.derived == chosen
            &&& vendor is Some && book.hostname(facts.src, now) is None && chosen is None
                ==> names.derived == vendor
            &&& vendor is Some && book.hostname(facts.src, now) is None && chosen is Some
                ==> names.derived == Some(chosen.unwrap() + " · "@ + vendor.unwrap())
            &&& facts.nearby && mac is Some ==> names.source == "LAN, "@ + mac.unwrap()
            &&& !facts.nearby && book.org(facts.src, now) is Some ==> names.source
                == "internet, "@ + book.org(facts.src, now).unwrap()
            &&& !facts.nearby && book.org(facts.src, now) is None ==> names.source == "internet"@
        }),
{
}

} // verus!
