//! Which addresses belong to this host, and which are group addresses.
//!
//! The blocked-flow detector answers one question: who is transmitting into a
//! port nothing is listening on? Two whole classes of drop record cannot answer
//! it: packets this host sent itself, which the kernel loops back into its own
//! input path, and packets shouted at a multicast or broadcast group. Knowing
//! the prefixes this host is attached to answers a third question, whether a
//! source is a neighbour: under IPv6 there is no NAT, so no address class tells
//! the machine on the next desk from a server on another continent.

use vstd::prelude::*;

use crate::addr;
use crate::addr::{parse_cidr, parse_ip, read_cidr, read_ip, shares_prefix, IpAddr};
use crate::text;
use crate::text::{spells, split_lines, split_words, to_chars};

verus! {

/// How long a detected address set is trusted before being read again. A DHCP
/// lease change or a VPN interface coming up both move it mid-run.
pub const REFRESH_SECS: i64 = 60;

// -- Address sets -------------------------------------------------------------

/// The addresses assigned to this host.
pub struct Addrs {
    /// Every address assigned to any interface.
    pub addrs: Vec<IpAddr>,
    /// The broadcast addresses of the interfaces, e.g. 10.3.255.255 for a /16.
    pub broadcasts: Vec<IpAddr>,
    /// Each assigned address with its prefix length: the subnets this host is
    /// directly attached to.
    pub networks: Vec<(IpAddr, u8)>,
}

/// The model of an address set.
pub struct AddrsView {
    pub addrs: Set<IpAddr>,
    pub broadcasts: Set<IpAddr>,
    pub networks: Seq<(IpAddr, u8)>,
}

impl View for Addrs {
    type V = AddrsView;

    open spec fn view(&self) -> AddrsView {
        AddrsView {
            addrs: self.addrs@.to_set(),
            broadcasts: self.broadcasts@.to_set(),
            networks: self.networks@,
        }
    }
}

/// No prefix is longer than its address.
pub open spec fn prefixes_fit(networks: Seq<(IpAddr, u8)>) -> bool {
    forall|i: int| 0 <= i < networks.len() ==> (#[trigger] networks[i]).1 <= addr::width(networks[i].0)
}

impl AddrsView {
    pub open spec fn none() -> AddrsView {
        AddrsView { addrs: Set::empty(), broadcasts: Set::empty(), networks: Seq::empty() }
    }

    pub open spec fn with_network(self, cidr: Option<(IpAddr, u8)>) -> AddrsView {
        match cidr {
            Some(net) => AddrsView {
                addrs: self.addrs.insert(net.0),
                broadcasts: self.broadcasts,
                networks: self.networks.push(net),
            },
            None => self,
        }
    }

    pub open spec fn with_broadcast(self, ip: Option<IpAddr>) -> AddrsView {
        match ip {
            Some(ip) => AddrsView { broadcasts: self.broadcasts.insert(ip), ..self },
            None => self,
        }
    }

    /// The addresses that the words of one line name, from word `i` on: what
    /// follows `inet` or `inet6` is assigned, what follows `brd` is a broadcast
    /// address.
    pub open spec fn with_words(self, w: Seq<Seq<char>>, i: int) -> AddrsView
        decreases w.len() - i,
    {
        if i >= w.len() {
            self
        } else if w[i] == "inet"@ || w[i] == "inet6"@ {
            if i + 1 < w.len() {
                self.with_network(addr::cidr_of(w[i + 1])).with_words(w, i + 2)
            } else {
                self
            }
        } else if w[i] == "brd"@ {
            if i + 1 < w.len() {
                self.with_broadcast(addr::ip_of(w[i + 1])).with_words(w, i + 2)
            } else {
                self
            }
        } else {
            self.with_words(w, i + 1)
        }
    }

    /// The addresses that the first `n` lines name.
    pub open spec fn of_lines(l: Seq<Seq<char>>, n: int) -> AddrsView
        decreases n,
    {
        if n <= 0 {
            AddrsView::none()
        } else {
            AddrsView::of_lines(l, n - 1).with_words(text::words(l[n - 1]), 0)
        }
    }

    /// The addresses that the output of `ip -o addr show` names, one line each:
    ///
    /// `2: wlp1s0    inet 10.3.153.246/16 brd 10.3.255.255 scope global …`
    pub open spec fn listed(output: Seq<char>) -> AddrsView {
        AddrsView::of_lines(text::lines(output), text::lines(output).len() as int)
    }
}

proof fn lemma_contains_push(s: Seq<IpAddr>, a: IpAddr, x: IpAddr)
    ensures
        s.push(a).contains(x) == (s.contains(x) || x == a),
{
    if s.contains(x) {
        let k = choose|k: int| 0 <= k < s.len() && s[k] == x;
        assert(s.push(a)[k] == x);
    }
    if x == a {
        assert(s.push(a)[s.len() as int] == x);
    }
    if s.push(a).contains(x) {
        let k = choose|k: int| 0 <= k < s.push(a).len() && s.push(a)[k] == x;
        if k < s.len() {
            assert(s[k] == x);
        }
    }
}

fn contains(v: &Vec<IpAddr>, ip: &IpAddr) -> (b: bool)
    ensures
        b == v@.to_set().contains(*ip),
{
    let mut i: usize = 0;
    while i < v.len()
        invariant
            i <= v.len(),
            forall|k: int| 0 <= k < i ==> v@[k] != *ip,
        decreases v.len() - i,
    {
        if v[i] == *ip {
            assert(v@.contains(*ip));
            return true;
        }
        i = i + 1;
    }
    assert(!v@.contains(*ip));
    false
}

fn add(v: &mut Vec<IpAddr>, ip: IpAddr)
    ensures
        final(v)@.to_set() == old(v)@.to_set().insert(ip),
        old(v)@.no_duplicates() ==> final(v)@.no_duplicates(),
{
    let ghost before = v@;
    if !contains(v, &ip) {
        v.push(ip);
        assert forall|x: IpAddr| v@.contains(x) == (before.contains(x) || x == ip) by {
            lemma_contains_push(before, ip, x);
        }
        assert(v@.to_set() =~= before.to_set().insert(ip));
    } else {
        assert(v@.to_set() =~= before.to_set().insert(ip));
    }
}

impl Addrs {
    pub open spec fn wf(self) -> bool {
        &&& prefixes_fit(self.networks@)
        &&& self.addrs@.no_duplicates()
    }

    pub fn none() -> (out: Addrs)
        ensures
            out.wf(),
            out@ == AddrsView::none(),
    {
        let out = Addrs { addrs: Vec::new(), broadcasts: Vec::new(), networks: Vec::new() };
        assert(out@.addrs =~= Set::empty());
        assert(out@.broadcasts =~= Set::empty());
        out
    }

    fn add_network(&mut self, net: (IpAddr, u8))
        requires
            old(self).wf(),
            net.1 <= addr::width(net.0),
        ensures
            final(self).wf(),
            final(self)@ == old(self)@.with_network(Some(net)),
    {
        crate::local::add(&mut self.addrs, net.0);
        self.networks.push(net);
    }

    fn add_broadcast(&mut self, ip: IpAddr)
        requires
            old(self).wf(),
        ensures
            final(self).wf(),
            final(self)@ == old(self)@.with_broadcast(Some(ip)),
    {
        crate::local::add(&mut self.broadcasts, ip);
    }

    fn add_words(&mut self, words: &Vec<Vec<char>>)
        requires
            old(self).wf(),
        ensures
            final(self).wf(),
            final(self)@ == old(self)@.with_words(text::spelled(words@), 0),
    {
        let ghost w = text::spelled(words@);
        let ghost goal = self@.with_words(w, 0);
        let mut i: usize = 0;
        while i < words.len()
            invariant
                i <= words.len(),
                w == text::spelled(words@),
                goal == old(self)@.with_words(w, 0),
                self.wf(),
                self@.with_words(w, i as int) == goal,
            decreases words.len() - i,
        {
            assert(w[i as int] == words@[i as int]@);
            if spells(&words[i], "inet") || spells(&words[i], "inet6") {
                if i + 1 >= words.len() {
                    return ;
                }
                assert(w[i + 1] == words@[i + 1]@);
                match read_cidr(&words[i + 1]) {
                    Some(net) => {
                        self.add_network(net);
                    },
                    None => {},
                }
                i = i + 2;
            } else if spells(&words[i], "brd") {
                if i + 1 >= words.len() {
                    return ;
                }
                assert(w[i + 1] == words@[i + 1]@);
                match read_ip(&words[i + 1]) {
                    Some(ip) => {
                        self.add_broadcast(ip);
                    },
                    None => {},
                }
                i = i + 2;
            } else {
                i = i + 1;
            }
        }
    }
}

/// What a run of `ip -o addr show` names: nothing where it could not be run.
pub open spec fn addrs_of(output: Option<&str>) -> AddrsView {
    match output {
        Some(t) => AddrsView::listed(t@),
        None => AddrsView::none(),
    }
}

/// Read assigned addresses and broadcast addresses from the output of
/// `ip -o addr show`, or nothing where it could not be run.
pub fn read_addrs(output: Option<&str>) -> (have: Addrs)
    ensures
        have.wf(),
        have@ == addrs_of(output),
{
    let mut have = Addrs::none();
    match output {
        None => {},
        Some(t) => {
            let lines = split_lines(&to_chars(t));
            let ghost model = text::lines(t@);
            let mut i: usize = 0;
            while i < lines.len()
                invariant
                    i <= lines.len(),
                    model == text::spelled(lines@),
                    have.wf(),
                    have@ == AddrsView::of_lines(model, i as int),
                decreases lines.len() - i,
            {
                assert(model[i as int] == lines@[i as int]@);
                have.add_words(&split_words(&lines[i]));
                i = i + 1;
            }
        },
    }
    have
}

/// The IPv6 addresses among others, but for the loopback address.
pub open spec fn ipv6_in(addrs: Set<IpAddr>) -> Set<IpAddr> {
    addrs.filter(|ip: IpAddr| ip is V6 && !ip.loopback())
}

/// Every IPv6 address assigned, loopback excluded.
///
/// Link-local counts: `fe80::…` appearing on an interface means the IPv6 stack
/// came up there, which is precisely the event worth noticing.
pub fn ipv6_addrs(have: &Addrs) -> (out: Vec<IpAddr>)
    requires
        have.wf(),
    ensures
        out@.no_duplicates(),
        out@.to_set() == ipv6_in(have@.addrs),
{
    let mut out: Vec<IpAddr> = Vec::new();
    let mut i: usize = 0;
    while i < have.addrs.len()
        invariant
            i <= have.addrs.len(),
            have.wf(),
            out@.no_duplicates(),
            forall|x: IpAddr| #[trigger]
                out@.contains(x) <==> (have.addrs@.take(i as int).contains(x) && x is V6
                    && !x.loopback()),
        decreases have.addrs.len() - i,
    {
        let ip = have.addrs[i];
        let ghost before = out@;
        let ghost seen = have.addrs@.take(i as int);
        assert(have.addrs@.take(i + 1) =~= seen.push(ip));
        assert(!seen.contains(ip)) by {
            if seen.contains(ip) {
                let k = choose|k: int| 0 <= k < seen.len() && seen[k] == ip;
                assert(have.addrs@[k] == have.addrs@[i as int]);
            }
        }
        assert(!before.contains(ip));
        if ip.is_ipv6() && !ip.is_loopback() {
            out.push(ip);
        }
        assert forall|x: IpAddr| #[trigger]
            out@.contains(x) <==> (seen.push(ip).contains(x) && x is V6 && !x.loopback()) by {
            lemma_contains_push(seen, ip, x);
            lemma_contains_push(before, ip, x);
        }
        i = i + 1;
    }
    assert(have.addrs@.take(i as int) =~= have.addrs@);
    assert(out@.to_set() =~= have@.addrs.filter(|ip: IpAddr| ip is V6 && !ip.loopback()));
    out
}

// -- This host's view of itself -----------------------------------------------

/// The addresses of this host, and when they were last read.
pub struct LocalNet {
    pub have: Addrs,
    pub refreshed: i64,
}

pub struct LocalView {
    pub have: AddrsView,
    pub refreshed: int,
}

impl View for LocalNet {
    type V = LocalView;

    open spec fn view(&self) -> LocalView {
        LocalView { have: self.have@, refreshed: self.refreshed as int }
    }
}

impl LocalView {
    /// An address assigned to this host, or a loopback address.
    pub open spec fn is_local(self, ip: IpAddr) -> bool {
        self.have.addrs.contains(ip) || ip.loopback()
    }

    /// An address aimed at a group rather than at one host: multicast, limited
    /// broadcast, or the broadcast address of an attached subnet.
    pub open spec fn is_group(self, ip: IpAddr) -> bool {
        match ip {
            IpAddr::V4(n) => ip.multicast() || n == u32::MAX || self.have.broadcasts.contains(ip),
            IpAddr::V6(_) => ip.multicast(),
        }
    }

    /// An address on a subnet this host is directly attached to.
    pub open spec fn is_on_link(self, ip: IpAddr) -> bool {
        exists|i: int|
            0 <= i < self.have.networks.len() && addr::same_prefix(
                ip,
                (#[trigger] self.have.networks[i]).0,
                self.have.networks[i].1 as int,
            )
    }

    /// The address set was read too long ago to be trusted.
    pub open spec fn stale(self, now: int) -> bool {
        now - self.refreshed >= REFRESH_SECS
    }

    /// This view after a chance to read the addresses again. A fresh view is
    /// kept, and so are the addresses where the reading names none.
    pub open spec fn refresh(self, now: int, fresh: AddrsView) -> LocalView {
        if !self.stale(now) {
            self
        } else if fresh.addrs == Set::<IpAddr>::empty() {
            LocalView { refreshed: now, ..self }
        } else {
            LocalView { have: fresh, refreshed: now }
        }
    }

    /// An address that is something other than the internet: on a subnet this
    /// host is attached to, or in private space.
    pub open spec fn nearby(self, src: Seq<char>) -> bool {
        (addr::ip_of(src) is Some && self.is_on_link(addr::ip_of(src).unwrap())) || addr::private(
            src,
        )
    }
}

impl LocalNet {
    pub open spec fn wf(self) -> bool {
        self.have.wf()
    }

    /// This host as the output of `ip -o addr show` describes it at `now`.
    pub fn detect(now: i64, output: Option<&str>) -> (out: LocalNet)
        ensures
            out.wf(),
            out@.have == addrs_of(output),
            out@.refreshed == now,
    {
        LocalNet { have: read_addrs(output), refreshed: now }
    }

    /// A fixed set that never goes stale. The networks are written in CIDR
    /// form; a text that writes none is left out.
    pub fn from_parts(networks: &[&str], broadcasts: &[&str]) -> (out: LocalNet)
        ensures
            out.wf(),
            out@.have == LocalView::parts(
                networks@,
                broadcasts@,
                networks@.len() as int,
                broadcasts@.len() as int,
            ),
            out@.refreshed == i64::MAX,
    {
        let mut have = Addrs::none();
        let mut i: usize = 0;
        while i < networks.len()
            invariant
                i <= networks.len(),
                have.wf(),
                have@ == LocalView::parts(networks@, broadcasts@, i as int, 0),
            decreases networks.len() - i,
        {
            match parse_cidr(networks[i]) {
                Some(net) => {
                    have.add_network(net);
                },
                None => {},
            }
            i = i + 1;
        }
        let mut j: usize = 0;
        while j < broadcasts.len()
            invariant
                j <= broadcasts.len(),
                have.wf(),
                have@ == LocalView::parts(
                    networks@,
                    broadcasts@,
                    networks@.len() as int,
                    j as int,
                ),
            decreases broadcasts.len() - j,
        {
            match parse_ip(broadcasts[j]) {
                Some(ip) => {
                    have.add_broadcast(ip);
                },
                None => {},
            }
            j = j + 1;
        }
        LocalNet { have, refreshed: i64::MAX }
    }

    pub fn is_stale(&self, now: i64) -> (b: bool)
        ensures
            b == self@.stale(now as int),
    {
        (now as i128) - (self.refreshed as i128) >= REFRESH_SECS as i128
    }

    /// Take up a new reading of the addresses, if the present one is stale. A
    /// reading that names no address means `ip` is missing or failed, and
    /// keeping the previous set is strictly better than filtering nothing.
    pub fn refresh_if_stale(&mut self, now: i64, output: Option<&str>)
        requires
            old(self).wf(),
        ensures
            final(self).wf(),
            final(self)@ == old(self)@.refresh(now as int, addrs_of(output)),
    {
        if !self.is_stale(now) {
            return ;
        }
        let fresh = read_addrs(output);
        if fresh.addrs.len() > 0 {
            assert(fresh.addrs@.to_set().contains(fresh.addrs@[0]));
            self.have = fresh;
        } else {
            assert(fresh.addrs@.to_set() =~= Set::<IpAddr>::empty());
        }
        self.refreshed = now;
    }

    /// Is this address assigned to this host?
    pub fn is_local(&self, ip: &IpAddr) -> (b: bool)
        ensures
            b == self@.is_local(*ip),
    {
        contains(&self.have.addrs, ip) || ip.is_loopback()
    }

    /// Is this address aimed at a group rather than at one host?
    pub fn is_group(&self, ip: &IpAddr) -> (b: bool)
        ensures
            b == self@.is_group(*ip),
    {
        match ip {
            IpAddr::V4(n) => ip.is_multicast() || *n == 0xffff_ffff || contains(
                &self.have.broadcasts,
                ip,
            ),
            IpAddr::V6(_) => ip.is_multicast(),
        }
    }

    /// Does this address sit on a subnet this host is directly attached to?
    pub fn is_on_link(&self, ip: &IpAddr) -> (b: bool)
        requires
            self.wf(),
        ensures
            b == self@.is_on_link(*ip),
    {
        let mut i: usize = 0;
        while i < self.have.networks.len()
            invariant
                i <= self.have.networks.len(),
                self.wf(),
                forall|k: int|
                    0 <= k < i ==> !addr::same_prefix(
                        *ip,
                        (#[trigger] self.have.networks@[k]).0,
                        self.have.networks@[k].1 as int,
                    ),
            decreases self.have.networks.len() - i,
        {
            let net = self.have.networks[i];
            if shares_prefix(ip, &net.0, net.1) {
                assert(addr::same_prefix(
                    *ip,
                    self@.have.networks[i as int].0,
                    self@.have.networks[i as int].1 as int,
                ));
                return true;
            }
            i = i + 1;
        }
        false
    }
}

impl LocalView {
    /// The addresses that the first `i` network texts and the first `j`
    /// broadcast texts write.
    pub open spec fn parts(
        networks: Seq<&str>,
        broadcasts: Seq<&str>,
        i: int,
        j: int,
    ) -> AddrsView
        decreases i, j,
    {
        if j > 0 {
            LocalView::parts(networks, broadcasts, i, j - 1).with_broadcast(
                addr::ip_of(broadcasts[j - 1]@),
            )
        } else if i > 0 {
            LocalView::parts(networks, broadcasts, i - 1, 0).with_network(
                addr::cidr_of(networks[i - 1]@),
            )
        } else {
            AddrsView::none()
        }
    }
}

/// Whether an address is something other than the internet.
///
/// Two conditions, and both are needed. On a subnet this host is attached to is
/// the only one that means anything under IPv6. Private v4 space still holds
/// when address discovery has failed, and covers a LAN host reached through a
/// router.
pub fn is_nearby(local: &LocalNet, src: &str) -> (b: bool)
    requires
        local.wf(),
    ensures
        b == local@.nearby(src@),
{
    let on_link: bool = match parse_ip(src) {
        Some(ip) => local.is_on_link(&ip),
        None => false,
    };
    on_link || addr::is_private(src)
}

// -- Laws ---------------------------------------------------------------------

/// Losing `ip` loses no address: where the new reading names none, what this
/// host knows of itself stays as it was.
pub proof fn a_failed_reading_keeps_the_addresses(local: LocalView, now: int)
    ensures
        local.refresh(now, AddrsView::none()).have == local.have,
{
}

/// A reading is trusted for its whole term: until it is stale, nothing that
/// comes in changes the view.
pub proof fn a_fresh_view_is_kept(local: LocalView, now: int, reading: AddrsView)
    requires
        now - local.refreshed < REFRESH_SECS,
    ensures
        local.refresh(now, reading) == local,
{
}

/// Right after a chance to read the addresses, the view is not stale.
pub proof fn a_refreshed_view_is_fresh(local: LocalView, now: int, reading: AddrsView)
    ensures
        !local.refresh(now, reading).stale(now),
{
}

/// An address is this host's own exactly where it is on record or is a loopback
/// address: one of 127.0.0.0/8, or ::1.
pub proof fn an_address_is_local_on_record_or_by_loopback(local: LocalView, n: u32, m: u128)
    ensures
        local.is_local(IpAddr::V4(n)) <==> local.have.addrs.contains(IpAddr::V4(n)) || 0x7f00_0000
            <= n <= 0x7fff_ffff,
        local.is_local(IpAddr::V6(m)) <==> local.have.addrs.contains(IpAddr::V6(m)) || m == 1,
{
}

/// An address stands for a group exactly where it is a multicast address, the
/// broadcast address to all, or, of IPv4, a broadcast address on record.
pub proof fn a_group_is_multicast_or_broadcast(local: LocalView, n: u32, m: u128)
    ensures
        local.is_group(IpAddr::V4(n)) <==> 0xe000_0000 <= n <= 0xefff_ffff || n == 0xffff_ffff
            || local.have.broadcasts.contains(IpAddr::V4(n)),
        local.is_group(IpAddr::V6(m)) <==> m >= 0xff00_0000_0000_0000_0000_0000_0000_0000,
{
}

/// An address is on the link exactly where it shares its network's first bits with
/// an address on record, and a sender is near where it is on the link or in
/// private space.
pub proof fn a_sender_is_near_on_the_link_or_in_private_space(
    local: LocalView,
    src: Seq<char>,
    ip: IpAddr,
)
    ensures
        local.is_on_link(ip) <==> exists|i: int|
            0 <= i < local.have.networks.len() && addr::same_prefix(
                ip,
                (#[trigger] local.have.networks[i]).0,
                local.have.networks[i].1 as int,
            ),
        addr::ip_of(src) == Some(ip) ==> (local.nearby(src) <==> local.is_on_link(ip)
            || addr::private(src)),
        addr::ip_of(src) is None ==> (local.nearby(src) <==> addr::private(src)),
{
}

/// The addresses are read again once a minute has passed, and what was read takes
/// their place, unless it holds no address at all.
pub proof fn addresses_are_read_again_after_a_minute(
    local: LocalView,
    now: int,
    reading: AddrsView,
    some: IpAddr,
)
    ensures
        now - local.refreshed < 60 ==> local.refresh(now, reading) == local,
        now - local.refreshed >= 60 && reading.addrs.contains(some) ==> local.refresh(now, reading)
            == (LocalView { have: reading, refreshed: now }),
        local.stale(now) <==> now >= local.refreshed + 60,
        now - local.refreshed >= 60 ==> local.refresh(now, reading).refreshed == now,
{
    if reading.addrs == Set::<IpAddr>::empty() {
        assert(!reading.addrs.contains(some));
    }
}

proof fn lemma_address_words()
    ensures
        "inet"@ == seq!['i', 'n', 'e', 't'],
        "inet6"@ == seq!['i', 'n', 'e', 't', '6'],
        "brd"@ == seq!['b', 'r', 'd'],
{
    reveal_strlit("inet");
    reveal_strlit("inet6");
    reveal_strlit("brd");
    assert("inet"@ =~= seq!['i', 'n', 'e', 't']);
    assert("inet6"@ =~= seq!['i', 'n', 'e', 't', '6']);
    assert("brd"@ =~= seq!['b', 'r', 'd']);
}

/// A word that announces what follows it: `inet` or `inet6` an address with its
/// prefix, `brd` a broadcast address.
pub open spec fn announces(word: Seq<char>) -> bool {
    word == seq!['i', 'n', 'e', 't'] || word == seq!['i', 'n', 'e', 't', '6'] || word == seq![
        'b',
        'r',
        'd',
    ]
}

proof fn lemma_plain_words(before: AddrsView, w: Seq<Seq<char>>, i: int, end: int)
    requires
        0 <= i <= end <= w.len(),
        forall|k: int| i <= k < end ==> !announces(#[trigger] w[k]),
    ensures
        before.with_words(w, i) == before.with_words(w, end),
    decreases end - i,
{
    lemma_address_words();
    if i < end {
        assert(!announces(w[i]));
        lemma_plain_words(before, w, i + 1, end);
    }
}

/// A line puts the address that follows `inet` or `inet6` on record, with its
/// network, and the one that follows `brd` as a broadcast address. Its other words
/// make no difference, and what is no address is passed over.
pub proof fn a_line_records_what_its_words_announce(
    before: AddrsView,
    w: Seq<Seq<char>>,
    i: int,
    at: int,
)
    requires
        0 <= i <= at <= w.len(),
        forall|k: int| i <= k < at ==> !announces(#[trigger] w[k]),
    ensures
        at == w.len() ==> before.with_words(w, i) == before,
        at + 1 < w.len() && (w[at] == seq!['i', 'n', 'e', 't'] || w[at] == seq![
            'i',
            'n',
            'e',
            't',
            '6',
        ]) ==> match addr::cidr_of(w[at + 1]) {
            Some((ip, bits)) => before.with_words(w, i) == (AddrsView {
                addrs: before.addrs.insert(ip),
                networks: before.networks.push((ip, bits)),
                broadcasts: before.broadcasts,
            }).with_words(w, at + 2),
            None => before.with_words(w, i) == before.with_words(w, at + 2),
        },
        at + 1 < w.len() && w[at] == seq!['b', 'r', 'd'] ==> match addr::ip_of(w[at + 1]) {
            Some(ip) => before.with_words(w, i) == (AddrsView {
                addrs: before.addrs,
                networks: before.networks,
                broadcasts: before.broadcasts.insert(ip),
            }).with_words(w, at + 2),
            None => before.with_words(w, i) == before.with_words(w, at + 2),
        },
        at + 1 == w.len() && announces(w[at]) ==> before.with_words(w, i) == before,
{
    lemma_address_words();
    lemma_plain_words(before, w, i, at);
}

/// Every line is read, in order, and from nothing on.
pub proof fn every_line_of_addresses_is_read(lines: Seq<Seq<char>>, n: int, output: &str)
    requires
        0 <= n,
    ensures
        AddrsView::of_lines(lines, 0).addrs == Set::<IpAddr>::empty(),
        AddrsView::of_lines(lines, 0).broadcasts == Set::<IpAddr>::empty(),
        AddrsView::of_lines(lines, 0).networks.len() == 0,
        AddrsView::of_lines(lines, n + 1) == AddrsView::of_lines(lines, n).with_words(
            text::words(lines[n]),
            0,
        ),
        addrs_of(Some(output)) == AddrsView::of_lines(
            text::lines(output@),
            text::lines(output@).len() as int,
        ),
        addrs_of(None) == AddrsView::of_lines(lines, 0),
{
}

/// Addresses given one by one are recorded like those of lines: each network with
/// its address, each broadcast address by itself, and what cannot be read not at
/// all.
pub proof fn addresses_given_one_by_one_are_recorded(
    networks: Seq<&str>,
    broadcasts: Seq<&str>,
    i: int,
    j: int,
)
    requires
        0 <= i < networks.len(),
        0 <= j < broadcasts.len(),
    ensures
        LocalView::parts(networks, broadcasts, 0, 0) == AddrsView::none(),
        match addr::cidr_of(networks[i]@) {
            Some((ip, bits)) => LocalView::parts(networks, broadcasts, i + 1, 0) == (AddrsView {
                addrs: LocalView::parts(networks, broadcasts, i, 0).addrs.insert(ip),
                networks: LocalView::parts(networks, broadcasts, i, 0).networks.push((ip, bits)),
                broadcasts: LocalView::parts(networks, broadcasts, i, 0).broadcasts,
            }),
            None => LocalView::parts(networks, broadcasts, i + 1, 0) == LocalView::parts(
                networks,
                broadcasts,
                i,
                0,
            ),
        },
        match addr::ip_of(broadcasts[j]@) {
            Some(ip) => LocalView::parts(networks, broadcasts, i, j + 1) == (AddrsView {
                broadcasts: LocalView::parts(networks, broadcasts, i, j).broadcasts.insert(ip),
                ..LocalView::parts(networks, broadcasts, i, j)
            }),
            None => LocalView::parts(networks, broadcasts, i, j + 1) == LocalView::parts(
                networks,
                broadcasts,
                i,
                j,
            ),
        },
{
}

/// Every IPv6 address counts but ::1, link-local ones too, and no IPv4 address.
pub proof fn every_ipv6_address_counts_but_loopback(addrs: Set<IpAddr>, n: u32, m: u128)
    ensures
        !ipv6_in(addrs).contains(IpAddr::V4(n)),
        m != 1 ==> (ipv6_in(addrs).contains(IpAddr::V6(m)) <==> addrs.contains(IpAddr::V6(m))),
        !ipv6_in(addrs).contains(IpAddr::V6(1)),
{
}

} // verus!
