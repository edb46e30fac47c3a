//! Is this host an endpoint, or is it passing traffic through?
//!
//! Every detector assumes that traffic arriving is traffic for this host. That
//! breaks the moment the kernel starts forwarding: per-interface inbound without
//! outbound is the normal shape of a router. Dual-homing is the milder cousin:
//! two interfaces on one subnet produce ARP flux, which is worth reporting.

use vstd::prelude::*;

use crate::addr;
use crate::addr::network_of;
use crate::text;
use crate::text::{
    spells, is_listed, join_texts, sort_texts, split_lines, split_words, text_eq, to_chars, to_text,
    trimmed,
};

verus! {

// -- Forwarding ---------------------------------------------------------------

/// A forwarding switch: the interface it is for, and what its file holds where
/// it can be read.
pub struct Switch {
    pub name: String,
    pub content: Option<String>,
}

pub struct SwitchView {
    pub name: Seq<char>,
    pub content: Option<Seq<char>>,
}

impl View for Switch {
    type V = SwitchView;

    open spec fn view(&self) -> SwitchView {
        SwitchView {
            name: self.name@,
            content: match self.content {
                Some(s) => Some(s@),
                None => None,
            },
        }
    }
}

pub open spec fn switches_view(v: Seq<Switch>) -> Seq<SwitchView> {
    v.map_values(|s: Switch| s@)
}

impl SwitchView {
    /// The switch is on, and for a live interface: `default` is a template for
    /// future ones.
    pub open spec fn on(self) -> bool {
        self.name != "default"@ && self.content is Some && text::trim(self.content.unwrap())
            == "1"@
    }
}

/// The interfaces whose switches are on.
pub open spec fn switched_on(switches: Seq<SwitchView>) -> Set<Seq<char>> {
    Set::new(
        |name: Seq<char>|
            exists|i: int|
                0 <= i < switches.len() && (#[trigger] switches[i]).on() && switches[i].name
                    == name,
    )
}

/// A switch file reads `1`.
pub open spec fn reads_one(content: Option<Seq<char>>) -> bool {
    match content {
        Some(s) => text::trim(s) == "1"@,
        None => false,
    }
}

/// What a switch file says.
pub fn flag_set(content: &Option<String>) -> (b: bool)
    ensures
        b == reads_one(
            match *content {
                Some(s) => Some(s@),
                None => None,
            },
        ),
{
    match content {
        Some(s) => spells(&trimmed(&to_chars(s.as_str())), "1"),
        None => false,
    }
}

/// Interfaces with forwarding enabled, `all` among them when it is set, in
/// dictionary order and each once. `switches` are those of IPv4 and IPv6.
///
/// All switches count: enabling a hotspot commonly sets forwarding on just the
/// two interfaces involved, leaving the global one at zero.
pub fn forwarding_ifaces(switches: &Vec<Switch>) -> (out: Vec<String>)
    ensures
        text::ordered(text::texts(out@)),
        text::texts(out@).no_duplicates(),
        text::texts(out@).to_set() == switched_on(switches_view(switches@)),
{
    let ghost all = switches_view(switches@);
    let mut found: Vec<String> = Vec::new();
    let mut i: usize = 0;
    assert(all.len() == switches@.len());
    while i < switches.len()
        invariant
            i <= switches.len(),
            all == switches_view(switches@),
            text::texts(found@).no_duplicates(),
            forall|name: Seq<char>| #[trigger]
                text::texts(found@).contains(name) <==> exists|k: int|
                    0 <= k < i && (#[trigger] all[k]).on() && all[k].name == name,
        decreases switches.len() - i,
    {
        assert(all[i as int] == switches@[i as int]@);
        let ghost before = text::texts(found@);
        let name = switches[i].name.as_str();
        if !text_eq(name, "default") && flag_set(&switches[i].content) {
            assert(all[i as int].on());
            if !is_listed(&found, name) {
                found.push(name.to_owned());
                assert(text::texts(found@) =~= before.push(name@));
            }
        }
        assert forall|other: Seq<char>| #[trigger]
            text::texts(found@).contains(other) <==> exists|k: int|
                0 <= k < i + 1 && (#[trigger] all[k]).on() && all[k].name == other by {
            lemma_contains_push(before, name@, other);
            if before.contains(other) {
                let k = choose|k: int| 0 <= k < i && (#[trigger] all[k]).on() && all[k].name == other;
                assert(all[k].on() && all[k].name == other);
            }
        }
        i = i + 1;
    }
    let ghost listed = text::texts(found@);
    let out = sort_texts(found);
    proof {
        lemma_same_members(listed, text::texts(out@));
        assert forall|name: Seq<char>|
            text::texts(out@).to_set().contains(name) == switched_on(all).contains(name) by {
            assert(listed.contains(name) == text::texts(out@).contains(name));
        }
        assert(text::texts(out@).to_set() =~= switched_on(all));
    }
    out
}

proof fn lemma_contains_push(s: Seq<Seq<char>>, a: Seq<char>, x: Seq<char>)
    ensures
        s.push(a).contains(x) == (s.contains(x) || x == a),
{
    if s.contains(x) {
        let k = choose|k: int| 0 <= k < s.len() && s[k] == x;
        assert(s.push(a)[k] == x);
    }
    if x == a {
        assert(s.push(a)[s.len() as int] == x);
    }
    if s.push(a).contains(x) {
        let k = choose|k: int| 0 <= k < s.push(a).len() && s.push(a)[k] == x;
        if k < s.len() {
            assert(s[k] == x);
        }
    }
}

proof fn lemma_same_members(a: Seq<Seq<char>>, b: Seq<Seq<char>>)
    requires
        a.to_multiset() == b.to_multiset(),
        a.no_duplicates(),
    ensures
        b.no_duplicates(),
        forall|x: Seq<char>| #[trigger] a.contains(x) == b.contains(x),
{
    broadcast use vstd::seq_lib::group_to_multiset_ensures;

    assert forall|x: Seq<char>| #[trigger] a.contains(x) == b.contains(x) by {
        assert(a.contains(x) == (a.to_multiset().count(x) > 0));
        assert(b.contains(x) == (b.to_multiset().count(x) > 0));
    }
    a.lemma_multiset_has_no_duplicates();
    b.lemma_multiset_has_no_duplicates_conv();
}

/// True when the kernel forwards for any interface.
pub fn is_forwarding(switches: &Vec<Switch>) -> (b: bool)
    ensures
        b == (switched_on(switches_view(switches@)) != Set::<Seq<char>>::empty()),
{
    let found = forwarding_ifaces(switches);
    let ghost names = text::texts(found@);
    assert(names.len() == found@.len());
    if found.len() > 0 {
        assert(names.to_set().contains(names[0]));
    } else {
        assert(names.to_set() =~= Set::<Seq<char>>::empty());
    }
    found.len() > 0
}

// -- Dual homing --------------------------------------------------------------

/// The interface and the subnet that a line of `ip -o addr show` names:
/// `1: lo    inet 127.0.0.1/8 scope host lo`. Loopback and link-local prefixes
/// are shared by definition, and say nothing.
pub open spec fn subnet_on(line: Seq<char>) -> Option<(Seq<char>, Seq<char>)> {
    let w = text::words(line);
    if w.len() < 4 || (w[2] != "inet"@ && w[2] != "inet6"@) {
        None
    } else {
        match addr::network_text(w[3]) {
            Some(subnet) => if text::begins(subnet, "127."@) || text::begins(subnet, "fe80:"@)
                || subnet == "::1/128"@ {
                None
            } else {
                Some((w[1], subnet))
            },
            None => None,
        }
    }
}

/// The interfaces on a subnet.
pub struct Homed {
    pub subnet: String,
    pub ifaces: Vec<String>,
}

pub struct HomedView {
    pub subnet: Seq<char>,
    pub ifaces: Seq<Seq<char>>,
}

impl View for Homed {
    type V = HomedView;

    open spec fn view(&self) -> HomedView {
        HomedView { subnet: self.subnet@, ifaces: text::texts(self.ifaces@) }
    }
}

pub open spec fn homed_view(v: Seq<Homed>) -> Seq<HomedView> {
    v.map_values(|h: Homed| h@)
}

/// The subnets from position `i` on with one more interface on one of them.
pub open spec fn with_home(
    homes: Seq<HomedView>,
    iface: Seq<char>,
    subnet: Seq<char>,
    i: int,
) -> Seq<HomedView>
    decreases homes.len() - i,
{
    if i < 0 || i >= homes.len() {
        homes.push(HomedView { subnet, ifaces: seq![iface] })
    } else if homes[i].subnet == subnet {
        if homes[i].ifaces.contains(iface) {
            homes
        } else {
            homes.update(i, HomedView { subnet, ifaces: homes[i].ifaces.push(iface) })
        }
    } else {
        with_home(homes, iface, subnet, i + 1)
    }
}

/// The subnets that the first `n` lines name.
pub open spec fn homes_upto(lines: Seq<Seq<char>>, n: int) -> Seq<HomedView>
    decreases n,
{
    if n <= 0 {
        Seq::empty()
    } else {
        match subnet_on(lines[n - 1]) {
            Some((iface, subnet)) => with_home(homes_upto(lines, n - 1), iface, subnet, 0),
            None => homes_upto(lines, n - 1),
        }
    }
}

/// Those of the first `n` subnets that more than one interface is on.
pub open spec fn shared_upto(homes: Seq<HomedView>, n: int) -> Seq<Seq<char>>
    decreases n,
{
    if n <= 0 {
        Seq::empty()
    } else if homes[n - 1].ifaces.len() > 1 {
        shared_upto(homes, n - 1).push(
            homes[n - 1].subnet + ": "@ + text::join(homes[n - 1].ifaces, ", "@),
        )
    } else {
        shared_upto(homes, n - 1)
    }
}

/// Interfaces that share a subnet, by the output of `ip -o addr show`.
pub open spec fn shared_in(output: Option<&str>) -> Seq<Seq<char>> {
    match output {
        Some(t) => {
            let homes = homes_upto(text::lines(t@), text::lines(t@).len() as int);
            shared_upto(homes, homes.len() as int)
        },
        None => Seq::empty(),
    }
}

fn read_subnet(line: &Vec<char>) -> (out: Option<(String, String)>)
    ensures
        match out {
            Some(p) => subnet_on(line@) == Some((p.0@, p.1@)),
            None => subnet_on(line@) is None,
        },
{
    let words = split_words(line);
    let ghost w = text::words(line@);
    assert(forall|k: int| 0 <= k < words@.len() ==> w[k] == (#[trigger] words@[k])@);
    if words.len() < 4 || (!spells(&words[2], "inet") && !spells(&words[2], "inet6")) {
        return None;
    }
    match network_of(to_text(&words[3]).as_str()) {
        Some(subnet) => {
            let chars = to_chars(subnet.as_str());
            if text::begins_with(&chars, "127.") || text::begins_with(&chars, "fe80:") || spells(
                &chars,
                "::1/128",
            ) {
                None
            } else {
                Some((to_text(&words[1]), subnet))
            }
        },
        None => None,
    }
}

fn add_home(homes: &mut Vec<Homed>, iface: String, subnet: String)
    ensures
        homed_view(final(homes)@) == with_home(homed_view(old(homes)@), iface@, subnet@, 0),
{
    let ghost all = homed_view(homes@);
    let mut i: usize = 0;
    while i < homes.len()
        invariant
            i <= homes.len(),
            homes@ == old(homes)@,
            all == homed_view(homes@),
            with_home(all, iface@, subnet@, 0) == with_home(all, iface@, subnet@, i as int),
        decreases homes.len() - i,
    {
        assert(all[i as int] == homes@[i as int]@);
        if text_eq(homes[i].subnet.as_str(), subnet.as_str()) {
            if !is_listed(&homes[i].ifaces, iface.as_str()) {
                let ghost before = all[i as int].ifaces;
                homes[i].ifaces.push(iface);
                assert(text::texts(homes@[i as int].ifaces@) =~= before.push(iface@));
                assert(homed_view(homes@) =~= all.update(
                    i as int,
                    HomedView { subnet: subnet@, ifaces: before.push(iface@) },
                ));
            }
            return ;
        }
        i = i + 1;
    }
    let mut ifaces: Vec<String> = Vec::new();
    ifaces.push(iface);
    assert(text::texts(ifaces@) =~= seq![iface@]);
    let home = Homed { subnet, ifaces };
    homes.push(home);
    assert(homed_view(homes@) =~= all.push(home@));
}

/// Interfaces that share a subnet, as `10.3.0.0/16: enp3s0f3u2, wlp1s0`, from
/// the output of `ip -o addr show`; none where it could not be run.
pub fn shared_subnets(output: Option<&str>) -> (out: Vec<String>)
    ensures
        text::texts(out@) == shared_in(output),
{
    let mut homes: Vec<Homed> = Vec::new();
    let mut out: Vec<String> = Vec::new();
    assert(text::texts(out@) =~= Seq::<Seq<char>>::empty());
    match output {
        None => {},
        Some(t) => {
            let lines = split_lines(&to_chars(t));
            let ghost model = text::lines(t@);
            let mut i: usize = 0;
            assert(homed_view(homes@) =~= Seq::<HomedView>::empty());
            while i < lines.len()
                invariant
                    i <= lines.len(),
                    model == text::spelled(lines@),
                    homed_view(homes@) == homes_upto(model, i as int),
                decreases lines.len() - i,
            {
                assert(model[i as int] == lines@[i as int]@);
                match read_subnet(&lines[i]) {
                    Some((iface, subnet)) => {
                        add_home(&mut homes, iface, subnet);
                    },
                    None => {},
                }
                i = i + 1;
            }
            let ghost all = homed_view(homes@);
            let mut k: usize = 0;
            while k < homes.len()
                invariant
                    k <= homes.len(),
                    all == homed_view(homes@),
                    text::texts(out@) == shared_upto(all, k as int),
                decreases homes.len() - k,
            {
                assert(all[k as int] == homes@[k as int]@);
                assert(all[k as int].ifaces.len() == homes@[k as int].ifaces@.len());
                if homes[k].ifaces.len() > 1 {
                    let ghost before = text::texts(out@);
                    let mut line: String = homes[k].subnet.clone();
                    line.append(": ");
                    line.append(join_texts(&homes[k].ifaces, ", ").as_str());
                    out.push(line);
                    assert(text::texts(out@) =~= before.push(line@));
                }
                k = k + 1;
            }
        },
    }
    out
}

// -- Reporting ----------------------------------------------------------------

pub open spec fn role_text(forwarding: Seq<Seq<char>>, shared: Seq<Seq<char>>) -> Seq<char> {
    let role = if forwarding.len() == 0 {
        "endpoint (not forwarding)"@
    } else {
        "ROUTING via "@ + text::join(forwarding, ", "@)
    };
    if shared.len() == 0 {
        role
    } else {
        role + " — dual-homed ["@ + text::join(shared, "; "@) + "]"@
    }
}

/// One line for the startup log and the status output.
pub fn describe(forwarding: &Vec<String>, shared: &Vec<String>) -> (out: String)
    ensures
        out@ == role_text(text::texts(forwarding@), text::texts(shared@)),
{
    assert(text::texts(forwarding@).len() == forwarding@.len());
    assert(text::texts(shared@).len() == shared@.len());
    let mut out: String = if forwarding.len() == 0 {
        "endpoint (not forwarding)".to_owned()
    } else {
        let mut o: String = "ROUTING via ".to_owned();
        o.append(join_texts(forwarding, ", ").as_str());
        o
    };
    if shared.len() > 0 {
        out.append(" — dual-homed [");
        out.append(join_texts(shared, "; ").as_str());
        out.append("]");
    }
    out
}

// -- Laws ---------------------------------------------------------------------

/// A host forwards through an interface exactly where the interface's switch reads
/// `1`, with any white space round it. The switch for interfaces to come is none.
pub proof fn an_interface_forwards_where_its_switch_reads_one(
    switches: Seq<SwitchView>,
    name: Seq<char>,
)
    ensures
        switched_on(switches).contains(name) <==> name != "default"@ && exists|i: int|
            0 <= i < switches.len() && (#[trigger] switches[i]).name == name
                && switches[i].content is Some && text::trim(switches[i].content.unwrap()) == seq![
                '1',
            ],
{
    reveal_strlit("1");
    assert("1"@ =~= seq!['1']);
    if switched_on(switches).contains(name) {
        let i = choose|i: int|
            0 <= i < switches.len() && (#[trigger] switches[i]).on() && switches[i].name == name;
        assert(switches[i].name == name);
    }
    if name != "default"@ && exists|i: int|
        0 <= i < switches.len() && (#[trigger] switches[i]).name == name
            && switches[i].content is Some && text::trim(switches[i].content.unwrap()) == seq!['1'] {
        let i = choose|i: int|
            0 <= i < switches.len() && (#[trigger] switches[i]).name == name
                && switches[i].content is Some && text::trim(switches[i].content.unwrap()) == seq![
                '1',
            ];
        assert(switches[i].on());
    }
}

/// A line of addresses gives the interface in its second word and the network of
/// the address in its fourth, of either family. Loopback and link-local networks
/// are passed over, and so is every other line.
pub proof fn a_line_gives_its_interface_and_network(line: Seq<char>, subnet: Seq<char>)
    ensures
        ({
            let w = text::words(line);
            let of_family = w.len() >= 4 && (w[2] == seq!['i', 'n', 'e', 't'] || w[2] == seq![
                'i',
                'n',
                'e',
                't',
                '6',
            ]);
            let own = text::begins(subnet, seq!['1', '2', '7', '.']) || text::begins(
                subnet,
                seq!['f', 'e', '8', '0', ':'],
            ) || subnet == seq![':', ':', '1', '/', '1', '2', '8'];
            &&& of_family && addr::network_text(w[3]) == Some(subnet) && !own ==> subnet_on(line)
                == Some((w[1], subnet))
            &&& of_family && addr::network_text(w[3]) == Some(subnet) && own ==> subnet_on(
                line,
            ) is None
            &&& !of_family || addr::network_text(w[3]) is None ==> subnet_on(line) is None
        }),
{
    reveal_strlit("inet");
    reveal_strlit("inet6");
    reveal_strlit("127.");
    reveal_strlit("fe80:");
    reveal_strlit("::1/128");
    assert("inet"@ =~= seq!['i', 'n', 'e', 't']);
    assert("inet6"@ =~= seq!['i', 'n', 'e', 't', '6']);
    assert("127."@ =~= seq!['1', '2', '7', '.']);
    assert("fe80:"@ =~= seq!['f', 'e', '8', '0', ':']);
    assert("::1/128"@ =~= seq![':', ':', '1', '/', '1', '2', '8']);
}

/// An interface is at home in a subnet.
pub open spec fn at_home(homes: Seq<HomedView>, iface: Seq<char>, subnet: Seq<char>) -> bool {
    exists|i: int|
        0 <= i < homes.len() && (#[trigger] homes[i]).subnet == subnet && homes[i].ifaces.contains(
            iface,
        )
}

/// Each subnet stands once, with an interface at least and none of them twice.
pub open spec fn tidy(homes: Seq<HomedView>) -> bool {
    &&& forall|i: int, j: int|
        0 <= i < j < homes.len() ==> (#[trigger] homes[i]).subnet != (#[trigger] homes[j]).subnet
    &&& forall|i: int|
        0 <= i < homes.len() ==> (#[trigger] homes[i]).ifaces.no_duplicates()
            && homes[i].ifaces.len() > 0
}

proof fn lemma_with_home(homes: Seq<HomedView>, iface: Seq<char>, subnet: Seq<char>, i: int)
    requires
        0 <= i <= homes.len(),
        tidy(homes),
        forall|k: int| 0 <= k < i ==> (#[trigger] homes[k]).subnet != subnet,
    ensures
        tidy(with_home(homes, iface, subnet, i)),
        forall|f: Seq<char>, s: Seq<char>| #[trigger]
            at_home(with_home(homes, iface, subnet, i), f, s) <==> at_home(homes, f, s) || (f
                == iface && s == subnet),
    decreases homes.len() - i,
{
    let after = with_home(homes, iface, subnet, i);
    if i >= homes.len() {
        let own = HomedView { subnet, ifaces: seq![iface] };
        assert(after == homes.push(own));
        assert(own.ifaces[0] == iface);
        assert forall|f: Seq<char>, s: Seq<char>| #[trigger] at_home(after, f, s) <==> at_home(
            homes,
            f,
            s,
        ) || (f == iface && s == subnet) by {
            if at_home(after, f, s) {
                let k = choose|k: int|
                    0 <= k < after.len() && (#[trigger] after[k]).subnet == s
                        && after[k].ifaces.contains(f);
                if k < homes.len() {
                    assert(homes[k] == after[k]);
                } else {
                    assert(after[k] == own);
                }
            }
            if at_home(homes, f, s) {
                let k = choose|k: int|
                    0 <= k < homes.len() && (#[trigger] homes[k]).subnet == s
                        && homes[k].ifaces.contains(f);
                assert(after[k] == homes[k]);
            }
            if f == iface && s == subnet {
                assert(after[homes.len() as int] == own);
                assert(own.ifaces.contains(f));
            }
        }
    } else if homes[i].subnet == subnet {
        lemma_home_found(homes, iface, subnet, i);
    } else {
        lemma_with_home(homes, iface, subnet, i + 1);
    }
}

proof fn lemma_home_found(homes: Seq<HomedView>, iface: Seq<char>, subnet: Seq<char>, i: int)
    requires
        0 <= i < homes.len(),
        tidy(homes),
        homes[i].subnet == subnet,
    ensures
        tidy(with_home(homes, iface, subnet, i)),
        forall|f: Seq<char>, s: Seq<char>| #[trigger]
            at_home(with_home(homes, iface, subnet, i), f, s) <==> at_home(homes, f, s) || (f
                == iface && s == subnet),
{
    let after = with_home(homes, iface, subnet, i);
    let old_ones = homes[i].ifaces;
    if old_ones.contains(iface) {
        assert(at_home(homes, iface, subnet));
    } else {
        let ifaces = old_ones.push(iface);
        assert(after == homes.update(i, HomedView { subnet, ifaces }));
        assert(ifaces.no_duplicates()) by {
            assert forall|a: int, b: int| 0 <= a < ifaces.len() && 0 <= b < ifaces.len() && a
                != b implies ifaces[a] != ifaces[b] by {
                if a == old_ones.len() {
                    assert(old_ones.contains(ifaces[b]));
                } else if b == old_ones.len() {
                    assert(old_ones.contains(ifaces[a]));
                }
            }
        }
        assert forall|f: Seq<char>, s: Seq<char>| #[trigger] at_home(after, f, s) <==> at_home(
            homes,
            f,
            s,
        ) || (f == iface && s == subnet) by {
            if at_home(after, f, s) {
                let k = choose|k: int|
                    0 <= k < after.len() && (#[trigger] after[k]).subnet == s
                        && after[k].ifaces.contains(f);
                if k == i {
                    let x = choose|x: int| 0 <= x < ifaces.len() && ifaces[x] == f;
                    if x < old_ones.len() {
                        assert(old_ones[x] == f);
                        assert(homes[i].ifaces.contains(f));
                    }
                } else {
                    assert(homes[k] == after[k]);
                }
            }
            if at_home(homes, f, s) {
                let k = choose|k: int|
                    0 <= k < homes.len() && (#[trigger] homes[k]).subnet == s
                        && homes[k].ifaces.contains(f);
                if k == i {
                    let x = choose|x: int| 0 <= x < old_ones.len() && old_ones[x] == f;
                    assert(ifaces[x] == f);
                }
                assert(after[k].ifaces.contains(f));
            }
            if f == iface && s == subnet {
                assert(ifaces[old_ones.len() as int] == iface);
                assert(after[i].ifaces.contains(f));
            }
        }
    }
}

proof fn lemma_homes(lines: Seq<Seq<char>>, n: int)
    requires
        0 <= n <= lines.len(),
    ensures
        tidy(homes_upto(lines, n)),
        forall|f: Seq<char>, s: Seq<char>| #[trigger]
            at_home(homes_upto(lines, n), f, s) <==> exists|k: int|
                0 <= k < n && subnet_on(#[trigger] lines[k]) == Some((f, s)),
    decreases n,
{
    let after = homes_upto(lines, n);
    if n > 0 {
        lemma_homes(lines, n - 1);
        let before = homes_upto(lines, n - 1);
        match subnet_on(lines[n - 1]) {
            Some((iface, subnet)) => {
                lemma_with_home(before, iface, subnet, 0);
            },
            None => {},
        }
        assert forall|f: Seq<char>, s: Seq<char>| #[trigger] at_home(after, f, s) <==> exists|
            k: int,
        |
            0 <= k < n && subnet_on(#[trigger] lines[k]) == Some((f, s)) by {
            assert(at_home(before, f, s) <==> exists|k: int|
                0 <= k < n - 1 && subnet_on(#[trigger] lines[k]) == Some((f, s)));
            if at_home(before, f, s) {
                let k = choose|k: int|
                    0 <= k < n - 1 && subnet_on(#[trigger] lines[k]) == Some((f, s));
                assert(subnet_on(lines[k]) == Some((f, s)));
            }
            if subnet_on(lines[n - 1]) == Some((f, s)) {
                assert(at_home(after, f, s));
            }
            if exists|k: int| 0 <= k < n && subnet_on(#[trigger] lines[k]) == Some((f, s)) {
                let k = choose|k: int|
                    0 <= k < n && subnet_on(#[trigger] lines[k]) == Some((f, s));
                if k < n - 1 {
                    assert(subnet_on(lines[k]) == Some((f, s)));
                }
            }
        }
    }
}

/// Interfaces are gathered under their subnets: one is at home in a subnet exactly
/// where some line gives it an address there. Each subnet stands once, and no
/// interface twice in it.
pub proof fn interfaces_are_gathered_under_their_subnets(
    lines: Seq<Seq<char>>,
    iface: Seq<char>,
    subnet: Seq<char>,
)
    ensures
        tidy(homes_upto(lines, lines.len() as int)),
        at_home(homes_upto(lines, lines.len() as int), iface, subnet) <==> exists|k: int|
            0 <= k < lines.len() && subnet_on(#[trigger] lines[k]) == Some((iface, subnet)),
{
    lemma_homes(lines, lines.len() as int);
}

proof fn lemma_shared(homes: Seq<HomedView>, n: int, line: Seq<char>)
    requires
        0 <= n <= homes.len(),
    ensures
        shared_upto(homes, n).contains(line) <==> exists|i: int|
            0 <= i < n && (#[trigger] homes[i]).ifaces.len() >= 2 && line == homes[i].subnet
                + ": "@ + text::join(homes[i].ifaces, ", "@),
    decreases n,
{
    if n > 0 {
        lemma_shared(homes, n - 1, line);
        let before = shared_upto(homes, n - 1);
        let after = shared_upto(homes, n);
        if homes[n - 1].ifaces.len() > 1 {
            let own = homes[n - 1].subnet + ": "@ + text::join(homes[n - 1].ifaces, ", "@);
            assert(after == before.push(own));
            assert(after[before.len() as int] == own);
            if before.contains(line) {
                let k = choose|k: int| 0 <= k < before.len() && before[k] == line;
                assert(after[k] == line);
            }
            if after.contains(line) {
                let k = choose|k: int| 0 <= k < after.len() && after[k] == line;
                if k < before.len() {
                    assert(before[k] == line);
                }
            }
        }
    }
}

/// A subnet is told of exactly where two interfaces or more are at home in it,
/// with their names behind its own.
pub proof fn a_shared_subnet_is_one_with_two_interfaces(homes: Seq<HomedView>, line: Seq<char>)
    ensures
        shared_upto(homes, homes.len() as int).contains(line) <==> exists|i: int|
            0 <= i < homes.len() && (#[trigger] homes[i]).ifaces.len() >= 2 && line
                == homes[i].subnet + seq![':', ' '] + text::join(homes[i].ifaces, seq![',', ' ']),
{
    lemma_shared(homes, homes.len() as int, line);
    reveal_strlit(": ");
    reveal_strlit(", ");
    assert(": "@ =~= seq![':', ' ']);
    assert(", "@ =~= seq![',', ' ']);
}

/// The words on a host's role say whether it forwards and by which interfaces, and
/// add the subnets that it shares only where there are some.
pub proof fn a_role_says_what_a_host_forwards_and_shares(
    forwarding: Seq<Seq<char>>,
    shared: Seq<Seq<char>>,
)
    ensures
        forwarding.len() == 0 && shared.len() == 0 ==> role_text(forwarding, shared)
            == "endpoint (not forwarding)"@,
        forwarding.len() > 0 && shared.len() == 0 ==> role_text(forwarding, shared)
            == "ROUTING via "@ + text::join(forwarding, ", "@),
        forwarding.len() == 0 && shared.len() > 0 ==> role_text(forwarding, shared)
            == "endpoint (not forwarding)"@ + " — dual-homed ["@ + text::join(shared, "; "@)
            + "]"@,
        forwarding.len() > 0 && shared.len() > 0 ==> role_text(forwarding, shared)
            == "ROUTING via "@ + text::join(forwarding, ", "@) + " — dual-homed ["@ + text::join(
            shared,
            "; "@,
        ) + "]"@,
{
}

/// A switch file is on exactly where it reads `1`, with any white space round it.
pub proof fn a_switch_file_is_on_where_it_reads_one(content: Seq<char>)
    ensures
        reads_one(Some(content)) <==> text::trim(content) == seq!['1'],
        !reads_one(None),
{
    reveal_strlit("1");
    assert("1"@ =~= seq!['1']);
}

} // verus!
