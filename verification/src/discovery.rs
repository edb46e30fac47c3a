//! Answers to queries this host asked for, dropped on arrival.
//!
//! Discovery protocols ask over multicast and are answered over unicast. The
//! query leaves for 239.255.255.250:1900; the answer comes back from
//! 10.3.193.195:1900. Conntrack tracked the first and cannot match the second,
//! so the reply arrives unsolicited and a default-deny firewall drops it. To the
//! blocked-flow detector that looks exactly like what it exists to catch, and it
//! is the opposite: nobody is transmitting at this host; this host asked.
//!
//! The tell is the source port. Each of these protocols answers from its own
//! well-known port, and the answer lands on whatever ephemeral port the query
//! went out from.

use vstd::prelude::*;

use crate::sockets;
use crate::text;
use crate::text::{read_unsigned, split_words, text_eq_ignoring_case, to_chars};

verus! {

// -- The port table -----------------------------------------------------------

/// Ports that service-discovery protocols answer from, with the protocol's name.
///
/// Only protocols whose replies are unicast to an ephemeral port, because that
/// is the shape conntrack cannot match.
pub open spec fn discovery_ports() -> Seq<(u16, Seq<char>)> {
    seq![
        (137u16, "NetBIOS name service"@),
        (138u16, "NetBIOS datagram"@),
        (1900u16, "SSDP"@),
        (3702u16, "WS-Discovery"@),
        (5353u16, "mDNS"@),
        (5355u16, "LLMNR"@),
        (6771u16, "BitTorrent local peer discovery"@),
        (32412u16, "Plex GDM"@),
        (32414u16, "Plex GDM"@),
        (57621u16, "Spotify Connect discovery"@),
    ]
}

/// The protocol that a port belongs to, if it is listed from position `i` on.
pub open spec fn listed_from(port: u16, i: int) -> Option<Seq<char>>
    decreases discovery_ports().len() - i,
{
    if i < 0 || i >= discovery_ports().len() {
        None
    } else if discovery_ports()[i].0 == port {
        Some(discovery_ports()[i].1)
    } else {
        listed_from(port, i + 1)
    }
}

/// The discovery protocol that answers from a port, if one does.
pub open spec fn protocol_at(port: u16) -> Option<Seq<char>> {
    listed_from(port, 0)
}

/// A text, by what it spells.
pub open spec fn name_view(name: Option<&str>) -> Option<Seq<char>> {
    match name {
        Some(n) => Some(n@),
        None => None,
    }
}

pub fn named_port(port: u16) -> (out: Option<&'static str>)
    ensures
        name_view(out) == protocol_at(port),
{
    proof {
        reveal_with_fuel(listed_from, 11);
    }
    match port {
        137 => Some("NetBIOS name service"),
        138 => Some("NetBIOS datagram"),
        1900 => Some("SSDP"),
        3702 => Some("WS-Discovery"),
        5353 => Some("mDNS"),
        5355 => Some("LLMNR"),
        6771 => Some("BitTorrent local peer discovery"),
        32412 => Some("Plex GDM"),
        32414 => Some("Plex GDM"),
        57621 => Some("Spotify Connect discovery"),
        _ => None,
    }
}

// -- The ephemeral range ------------------------------------------------------

/// The ports the kernel allocates ephemeral source ports from, both ends among
/// them.
#[derive(Clone, Copy, Debug, PartialEq, Eq, Structural)]
pub struct EphemeralRange {
    pub floor: u16,
    pub ceiling: u16,
}

/// Linux's usual range, for when it cannot be read.
pub const DEFAULT_EPHEMERAL_FLOOR: u16 = 32768;

pub const DEFAULT_EPHEMERAL_CEILING: u16 = 60999;

impl EphemeralRange {
    pub open spec fn usual() -> EphemeralRange {
        EphemeralRange { floor: DEFAULT_EPHEMERAL_FLOOR, ceiling: DEFAULT_EPHEMERAL_CEILING }
    }

    /// The range that two ports write; the usual one where they do not.
    pub open spec fn written(s: Seq<char>) -> EphemeralRange {
        let w = text::words(s);
        if w.len() < 2 {
            EphemeralRange::usual()
        } else {
            match (
                text::unsigned(w[0], u16::MAX as nat),
                text::unsigned(w[1], u16::MAX as nat),
            ) {
                (Some(a), Some(b)) => EphemeralRange { floor: a as u16, ceiling: b as u16 },
                _ => EphemeralRange::usual(),
            }
        }
    }

    pub open spec fn holds(self, port: u16) -> bool {
        self.floor <= port <= self.ceiling
    }

    /// The range that `/proc/sys/net/ipv4/ip_local_port_range` holds, or the
    /// usual one where it cannot be read.
    ///
    /// A query this host sent went out from this range, so a reply arriving
    /// anywhere else was not answering it.
    pub fn read(content: Option<&str>) -> (out: EphemeralRange)
        ensures
            out == match content {
                Some(t) => EphemeralRange::written(t@),
                None => EphemeralRange::usual(),
            },
    {
        let usual = EphemeralRange {
            floor: DEFAULT_EPHEMERAL_FLOOR,
            ceiling: DEFAULT_EPHEMERAL_CEILING,
        };
        match content {
            None => usual,
            Some(t) => {
                let words = split_words(&to_chars(t));
                let ghost w = text::words(t@);
                assert(forall|k: int| 0 <= k < words@.len() ==> w[k] == (#[trigger] words@[k])@);
                if words.len() < 2 {
                    return usual;
                }
                match (
                    read_unsigned(&words[0], u16::MAX as u64),
                    read_unsigned(&words[1], u16::MAX as u64),
                ) {
                    (Some(a), Some(b)) => EphemeralRange { floor: a as u16, ceiling: b as u16 },
                    _ => usual,
                }
            },
        }
    }
}

// -- Classification -----------------------------------------------------------

/// The discovery protocol that a packet answers on. All four conditions are
/// needed: UDP, a nearby source, an ephemeral destination that is not itself a
/// discovery port, and a listed source port.
pub open spec fn answered(
    proto: Seq<char>,
    sport: u16,
    dport: u16,
    nearby: bool,
    range: EphemeralRange,
) -> Option<Seq<char>> {
    if text::same_ignoring_case(proto, "UDP"@) && nearby && range.holds(dport) && protocol_at(
        dport,
    ) is None {
        protocol_at(sport)
    } else {
        None
    }
}

/// Name the discovery protocol a dropped packet is replying on, if it is one.
///
/// A source port is chosen by the sender, so this is evidence, not proof. That
/// is why matching alone silences nothing: only together with a local socket
/// that could have received the packet is a reply quiet by default.
pub fn classify(
    proto: &str,
    sport: u16,
    dport: u16,
    nearby: bool,
    range: &EphemeralRange,
) -> (out: Option<&'static str>)
    ensures
        name_view(out) == answered(proto@, sport, dport, nearby, *range),
{
    if !text_eq_ignoring_case(proto, "UDP") || !nearby || dport < range.floor || dport
        > range.ceiling {
        return None;
    }
    if named_port(dport).is_some() {
        return None;
    }
    named_port(sport)
}

// -- Laws ---------------------------------------------------------------------

/// A flood at a discovery port, or at any port outside the ephemeral range,
/// stays visible as what it is, whatever it is sent from.
pub proof fn traffic_at_a_service_port_is_no_reply(
    proto: Seq<char>,
    sport: u16,
    dport: u16,
    nearby: bool,
    range: EphemeralRange,
)
    requires
        protocol_at(dport) is Some || !range.holds(dport),
    ensures
        answered(proto, sport, dport, nearby, range) is None,
{
}

/// Discovery does not cross a router: nothing from beyond it is a reply.
pub proof fn nothing_from_the_internet_is_a_reply(
    proto: Seq<char>,
    sport: u16,
    dport: u16,
    range: EphemeralRange,
)
    ensures
        answered(proto, sport, dport, false, range) is None,
{
}

/// Only the listed ports answer: what is sent from any other port is no reply,
/// however it is addressed.
pub proof fn only_listed_ports_reply(
    proto: Seq<char>,
    sport: u16,
    dport: u16,
    nearby: bool,
    range: EphemeralRange,
)
    requires
        protocol_at(sport) is None,
    ensures
        answered(proto, sport, dport, nearby, range) is None,
{
}

/// These ports, and no others, belong to a discovery protocol, each to the one
/// named with it.
pub proof fn discovery_ports_are_these(port: u16)
    ensures
        port == 137 ==> protocol_at(port) == Some("NetBIOS name service"@),
        port == 138 ==> protocol_at(port) == Some("NetBIOS datagram"@),
        port == 1900 ==> protocol_at(port) == Some("SSDP"@),
        port == 3702 ==> protocol_at(port) == Some("WS-Discovery"@),
        port == 5353 ==> protocol_at(port) == Some("mDNS"@),
        port == 5355 ==> protocol_at(port) == Some("LLMNR"@),
        port == 6771 ==> protocol_at(port) == Some("BitTorrent local peer discovery"@),
        port == 32412 || port == 32414 ==> protocol_at(port) == Some("Plex GDM"@),
        port == 57621 ==> protocol_at(port) == Some("Spotify Connect discovery"@),
        protocol_at(port) is Some <==> port == 137 || port == 138 || port == 1900 || port == 3702
            || port == 5353 || port == 5355 || port == 6771 || port == 32412 || port == 32414
            || port == 57621,
{
    reveal_with_fuel(listed_from, 11);
}

/// A range of ports holds both its ends and what lies between them. It reads back
/// from its two numbers, and is the usual one where it cannot be read.
pub proof fn a_range_reads_back_with_both_ends(
    parts: Seq<Seq<char>>,
    floor: u16,
    ceiling: u16,
    port: u16,
)
    requires
        forall|i: int| 0 <= i < parts.len() ==> text::is_word(#[trigger] parts[i]),
    ensures
        ({
            let range = EphemeralRange::written(text::join(parts, " "@));
            &&& parts.len() >= 2 && parts[0] == text::dec(floor as nat) && parts[1] == text::dec(
                ceiling as nat,
            ) ==> (range.holds(port) <==> floor <= port && port <= ceiling)
            &&& parts.len() < 2 || text::unsigned(parts[0], 65535) is None || text::unsigned(
                parts[1],
                65535,
            ) is None ==> (range.holds(port) <==> 32768 <= port <= 60999)
        }),
        EphemeralRange::usual().holds(port) <==> 32768 <= port <= 60999,
{
    text::splitting_words_undoes_joining(parts);
    text::a_number_reads_back(floor as nat);
    text::a_number_reads_back(ceiling as nat);
}

/// A packet answers a discovery of this host exactly where it is UDP in any case,
/// its sender is near, it comes from a port of a discovery protocol, and it goes
/// to a port for outgoing traffic that belongs to none.
pub proof fn a_reply_comes_from_a_service_to_a_port_of_no_service(
    proto: Seq<char>,
    sport: u16,
    dport: u16,
    nearby: bool,
    range: EphemeralRange,
)
    ensures
        ({
            let reply = answered(proto, sport, dport, nearby, range);
            let fits = sockets::spelled_udp(proto) && nearby && range.floor <= dport && dport
                <= range.ceiling && protocol_at(dport) is None;
            &&& fits ==> reply == protocol_at(sport)
            &&& !fits ==> reply is None
        }),
{
    sockets::lemma_spelled(proto);
}

} // verus!
