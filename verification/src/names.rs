//! What a device on the network is called.
//!
//! A device is named the way its owner would recognise it: by the name they
//! chose, by a hostname a person plausibly chose, by the vendor behind its MAC,
//! or by its bare address. Finding these out means asking the resolver, the
//! neighbour table, the hardware database and whois; the answers of all of them
//! are texts, and what they say, how long they are believed and how they are
//! put together is decided here.

use vstd::prelude::*;

use crate::table::Table;
use crate::text;
use crate::text::{
    after_prefix, copy_range, digit, find_char, holds_text, join_texts, same, spells, split_char,
    split_lines, split_words, text_eq_ignoring_case, to_chars, to_text, to_texts, trimmed,
    trimmed_end,
};

verus! {

// -- Vendors ------------------------------------------------------------------

/// What is left of the first `n` characters without what stands in parentheses,
/// and how many parentheses are open there.
pub open spec fn unparenthesised(s: Seq<char>, n: int) -> (Seq<char>, nat)
    decreases n,
{
    if n <= 0 {
        (Seq::empty(), 0)
    } else {
        let (out, depth) = unparenthesised(s, n - 1);
        let c = s[n - 1];
        if c == '(' {
            (out, depth + 1)
        } else if c == ')' {
            (
                out,
                if depth > 0 {
                    (depth - 1) as nat
                } else {
                    0
                },
            )
        } else if depth == 0 {
            (out.push(c), depth)
        } else {
            (out, depth)
        }
    }
}

/// Boilerplate the registry carries that never says which box this is.
pub open spec fn vendor_noise() -> Seq<Seq<char>> {
    seq![
        " Inc."@,
        " Inc"@,
        " Corp."@,
        " Corp"@,
        " Corporation"@,
        " Corporate"@,
        " Company"@,
        " Co."@,
        " Co"@,
        " Ltd."@,
        " Ltd"@,
        " Limited"@,
        " LLC"@,
        " L.L.C."@,
        " GmbH"@,
        " AG"@,
        " B.V."@,
        " N.V."@,
        " S.A."@,
        " PLC"@,
        " Pte"@,
        " Pty"@,
        " Technologies"@,
        " Technology"@,
        " Electronics"@,
        " Electronic"@,
        " Systems"@,
        " Networks"@,
        " Solutions"@,
        " Communications"@,
    ]
}

/// The text in front of a suffix, whatever the case of its ASCII letters.
pub open spec fn before_suffix(s: Seq<char>, suffix: Seq<char>) -> Option<Seq<char>> {
    let split = s.len() - suffix.len();
    if split >= 0 && text::same_ignoring_case(s.skip(split), suffix) {
        Some(s.take(split))
    } else {
        None
    }
}

/// A name without a piece of boilerplate at its end. A name is never stripped
/// down to nothing: a vendor really called "Systems" keeps its name.
pub open spec fn shed(name: Seq<char>, suffix: Seq<char>) -> Seq<char> {
    match before_suffix(name, suffix) {
        Some(head) => if text::trim_end(head).len() > 0 {
            text::trim_end(head)
        } else {
            name
        },
        None => name,
    }
}

/// A name after shedding the first `n` pieces of boilerplate, each once.
pub open spec fn shed_upto(name: Seq<char>, n: int) -> Seq<char>
    decreases n,
{
    if n <= 0 {
        name
    } else {
        shed(shed_upto(name, n - 1), vendor_noise()[n - 1])
    }
}

/// A name after shedding boilerplate until nothing changes, at most so many
/// times over.
pub open spec fn shed_all(name: Seq<char>, rounds: nat) -> Seq<char>
    decreases rounds,
{
    let after = shed_upto(name, vendor_noise().len() as int);
    if rounds == 0 || after == name {
        name
    } else {
        shed_all(after, (rounds - 1) as nat)
    }
}

/// How often boilerplate is shed at most.
pub const SHED_ROUNDS: u32 = 8;

/// What stands before the first comma of a registered name, parentheses apart.
pub open spec fn registered_head(raw: Seq<char>) -> Seq<char> {
    let open = unparenthesised(raw, raw.len() as int).0;
    text::trim(open.take(text::next_index(open, ',', 0)))
}

/// The part of a registered name that identifies a device.
pub open spec fn tidied(raw: Seq<char>) -> Seq<char> {
    let head = registered_head(raw);
    let out = text::join(text::words(shed_all(head, SHED_ROUNDS as nat)), " "@);
    if out.len() == 0 {
        text::trim(raw)
    } else {
        out
    }
}

/// `strip_suffix`, but case-insensitively: the registry writes "co., ltd" as
/// often as "Co., Ltd".
pub fn strip_suffix_ci(s: &Vec<char>, suffix: &str) -> (out: Option<Vec<char>>)
    ensures
        match out {
            Some(head) => before_suffix(s@, suffix@) == Some(head@),
            None => before_suffix(s@, suffix@) is None,
        },
{
    let n: usize = to_chars(suffix).len();
    if s.len() < n {
        return None;
    }
    let split: usize = s.len() - n;
    let tail = copy_range(s, split, s.len());
    assert(tail@ =~= s@.skip(split as int));
    if text_eq_ignoring_case(to_text(&tail).as_str(), suffix) {
        let head = copy_range(s, 0, split);
        assert(head@ =~= s@.take(split as int));
        Some(head)
    } else {
        None
    }
}

fn noise_at(i: usize) -> (out: &'static str)
    requires
        i < vendor_noise().len(),
    ensures
        out@ == vendor_noise()[i as int],
{
    match i {
        0 => " Inc.",
        1 => " Inc",
        2 => " Corp.",
        3 => " Corp",
        4 => " Corporation",
        5 => " Corporate",
        6 => " Company",
        7 => " Co.",
        8 => " Co",
        9 => " Ltd.",
        10 => " Ltd",
        11 => " Limited",
        12 => " LLC",
        13 => " L.L.C.",
        14 => " GmbH",
        15 => " AG",
        16 => " B.V.",
        17 => " N.V.",
        18 => " S.A.",
        19 => " PLC",
        20 => " Pte",
        21 => " Pty",
        22 => " Technologies",
        23 => " Technology",
        24 => " Electronics",
        25 => " Electronic",
        26 => " Systems",
        27 => " Networks",
        28 => " Solutions",
        _ => " Communications",
    }
}

fn without_parentheses(raw: &Vec<char>) -> (out: Vec<char>)
    ensures
        out@ == unparenthesised(raw@, raw@.len() as int).0,
{
    let mut out: Vec<char> = Vec::new();
    let mut depth: usize = 0;
    let mut i: usize = 0;
    while i < raw.len()
        invariant
            i <= raw.len(),
            depth <= i,
            (out@, depth as nat) == unparenthesised(raw@, i as int),
        decreases raw.len() - i,
    {
        let c: char = raw[i];
        if c == '(' {
            depth = depth + 1;
        } else if c == ')' {
            if depth > 0 {
                depth = depth - 1;
            }
        } else if depth == 0 {
            out.push(c);
        }
        i = i + 1;
    }
    out
}

fn shed_once(name: Vec<char>) -> (out: Vec<char>)
    ensures
        out@ == shed_upto(name@, vendor_noise().len() as int),
{
    let ghost start = name@;
    let mut best = name;
    let mut i: usize = 0;
    while i < 30
        invariant
            i <= 30,
            vendor_noise().len() == 30,
            best@ == shed_upto(start, i as int),
        decreases 30 - i,
    {
        match strip_suffix_ci(&best, noise_at(i)) {
            Some(head) => {
                let kept = trimmed_end(&head);
                if kept.len() > 0 {
                    best = kept;
                }
            },
            None => {},
        }
        i = i + 1;
    }
    best
}

/// "Roku, Inc" is "Roku". "GL Technologies (Hong Kong) Limited" is "GL".
///
/// The registry is full of legal boilerplate, place-of-incorporation
/// parentheticals and generic descriptors. None of it identifies the device,
/// and all of it costs width in a popup budgeted at two lines.
pub fn tidy_vendor(raw: &str) -> (out: String)
    ensures
        out@ == tidied(raw@),
{
    let chars = to_chars(raw);
    let open = without_parentheses(&chars);
    let end: usize = find_char(&open, ',', 0);
    let first = copy_range(&open, 0, end);
    assert(first@ =~= open@.take(end as int));
    let mut best = trimmed(&first);
    let ghost goal = shed_all(best@, SHED_ROUNDS as nat);
    let mut rounds: u32 = SHED_ROUNDS;
    while rounds > 0
        invariant_except_break
            shed_all(best@, rounds as nat) == goal,
        ensures
            best@ == goal,
        decreases rounds,
    {
        let before = copy_range(&best, 0, best.len());
        assert(before@ =~= best@);
        best = shed_once(best);
        if same(&best, &before) {
            break;
        }
        rounds = rounds - 1;
    }
    let out = join_texts(&to_texts(&split_words(&best)), " ");
    if to_chars(out.as_str()).len() == 0 {
        to_text(&trimmed(&chars))
    } else {
        out
    }
}

// -- Names --------------------------------------------------------------------

/// How many bytes a text takes in UTF-8.
pub open spec fn utf8_len(s: Seq<char>) -> nat
    decreases s.len(),
{
    if s.len() == 0 {
        0
    } else {
        utf8_len(s.drop_last()) + utf8_width(s.last())
    }
}

pub open spec fn utf8_width(c: char) -> nat {
    if (c as u32) < 0x80 {
        1
    } else if (c as u32) < 0x800 {
        2
    } else if (c as u32) < 0x1_0000 {
        3
    } else {
        4
    }
}

/// The number of bytes a text takes, in a type that no text is too long for.
fn byte_length(v: &Vec<char>) -> (out: u128)
    ensures
        out == utf8_len(v@),
{
    let mut out: u128 = 0;
    let mut i: usize = 0;
    assert(v@.take(0) =~= Seq::<char>::empty());
    while i < v.len()
        invariant
            i <= v.len(),
            out == utf8_len(v@.take(i as int)),
            out <= 4 * i,
        decreases v.len() - i,
    {
        let n: u32 = v[i] as u32;
        let width: u128 = if n < 0x80 {
            1
        } else if n < 0x800 {
            2
        } else if n < 0x1_0000 {
            3
        } else {
            4
        };
        assert(v@.take(i + 1).drop_last() =~= v@.take(i as int));
        out = out + width;
        i = i + 1;
    }
    assert(v@.take(i as int) =~= v@);
    out
}

/// A name no human picked: shouting alphanumerics of identifier length, with a
/// digit and no lowercase letter anywhere.
pub open spec fn machine_generated(label: Seq<char>) -> bool {
    &&& utf8_len(label) >= 8
    &&& exists|i: int| 0 <= i < label.len() && text::is_digit(#[trigger] label[i])
    &&& forall|i: int| 0 <= i < label.len() ==> !('a' <= #[trigger] label[i] <= 'z')
}

/// True for names like `X01000EKSRNP` or `AC233FA1B2C3`.
pub fn looks_machine_generated(label: &str) -> (b: bool)
    ensures
        b == machine_generated(label@),
{
    let v = to_chars(label);
    let mut has_digit: bool = false;
    let mut i: usize = 0;
    while i < v.len()
        invariant
            i <= v.len(),
            v@ == label@,
            has_digit == exists|k: int| 0 <= k < i && text::is_digit(#[trigger] v@[k]),
            forall|k: int| 0 <= k < i ==> !('a' <= #[trigger] v@[k] <= 'z'),
        decreases v.len() - i,
    {
        let c: char = v[i];
        if 'a' <= c && c <= 'z' {
            assert('a' <= label@[i as int] <= 'z');
            return false;
        }
        if digit(c) {
            has_digit = true;
            assert(text::is_digit(v@[i as int]));
        }
        i = i + 1;
    }
    has_digit && byte_length(&v) >= 8
}

/// The part of a hostname before its first dot, if it is not empty.
pub open spec fn short_name(fqdn: Option<Seq<char>>) -> Option<Seq<char>> {
    match fqdn {
        Some(n) => {
            let first = n.take(text::next_index(n, '.', 0));
            if first.len() > 0 {
                Some(first)
            } else {
                None
            }
        },
        None => None,
    }
}

/// A text that may be missing, by what it spells.
pub open spec fn spelled_or(s: Option<String>) -> Option<Seq<char>> {
    match s {
        Some(t) => Some(t@),
        None => None,
    }
}

/// A borrowed text that may be missing, by what it spells.
pub open spec fn borrowed_or(s: Option<&str>) -> Option<Seq<char>> {
    match s {
        Some(t) => Some(t@),
        None => None,
    }
}

fn shorten(fqdn: Option<&str>) -> (out: Option<String>)
    ensures
        spelled_or(out) == short_name(borrowed_or(fqdn)),
{
    match fqdn {
        Some(n) => {
            let v = to_chars(n);
            let end: usize = find_char(&v, '.', 0);
            let first = copy_range(&v, 0, end);
            assert(first@ =~= v@.take(end as int));
            if first.len() > 0 {
                Some(to_text(&first))
            } else {
                None
            }
        },
        None => None,
    }
}

/// `name (address)`.
pub open spec fn named(name: Seq<char>, ip: Seq<char>) -> Seq<char> {
    name + " ("@ + ip + ")"@
}

fn with_address(name: &str, ip: &str) -> (out: String)
    ensures
        out@ == named(name@, ip@),
{
    let mut out: String = name.to_owned();
    out.append(" (");
    out.append(ip);
    out.append(")");
    out
}

/// The label of a device: the chosen name, else a hostname of which the first
/// label looks like a person chose it, else the vendor, else that first label,
/// else the bare address. The address is always kept alongside the name.
pub open spec fn label_of(
    ip: Seq<char>,
    chosen: Option<Seq<char>>,
    hostname: Option<Seq<char>>,
    vendor: Option<Seq<char>>,
) -> Seq<char> {
    let short = short_name(hostname);
    if chosen is Some {
        named(chosen.unwrap(), ip)
    } else if short is Some && !machine_generated(short.unwrap()) {
        named(hostname.unwrap(), ip)
    } else if vendor is Some {
        named(vendor.unwrap(), ip)
    } else if short is Some {
        named(short.unwrap(), ip)
    } else {
        ip
    }
}

/// Name a device the way its owner would recognise it, e.g. `Roku
/// (10.3.193.195)` or `caldera.lan (10.3.59.7)`, falling back to the bare
/// address.
pub fn label(
    ip: &str,
    chosen: Option<&str>,
    hostname: Option<&str>,
    vendor: Option<&str>,
) -> (out: String)
    ensures
        out@ == label_of(ip@, borrowed_or(chosen), borrowed_or(hostname), borrowed_or(vendor)),
{
    match chosen {
        Some(name) => {
            return with_address(name, ip);
        },
        None => {},
    }
    let short = shorten(hostname);
    match (&short, hostname) {
        (Some(first), Some(name)) => {
            if !looks_machine_generated(first.as_str()) {
                return with_address(name, ip);
            }
        },
        _ => {},
    }
    match vendor {
        Some(v) => with_address(v, ip),
        None => match &short {
            Some(name) => with_address(name.as_str(), ip),
            None => ip.to_owned(),
        },
    }
}

/// A text says a name, whatever its case.
pub open spec fn says(s: Seq<char>, name: Seq<char>) -> bool {
    text::contains_text(text::lowercased(s), text::lowercased(name))
}

/// What the network calls a device.
pub open spec fn primary_of(ip: Seq<char>, fqdn: Option<Seq<char>>) -> Seq<char> {
    match fqdn {
        Some(n) => named(n, ip),
        None => ip,
    }
}

/// What was worked out about a device: the name chosen for it, and its vendor
/// unless the hostname says it already.
pub open spec fn derived_of(
    fqdn: Option<Seq<char>>,
    chosen: Option<Seq<char>>,
    vendor: Option<Seq<char>>,
) -> Option<Seq<char>> {
    let host = short_name(fqdn);
    let said = vendor is Some && host is Some && says(host.unwrap(), vendor.unwrap());
    match (chosen, vendor) {
        (Some(c), Some(v)) => if said {
            Some(c)
        } else {
            Some(c + " · "@ + v)
        },
        (Some(c), None) => Some(c),
        (None, Some(v)) => if said {
            None
        } else {
            Some(v)
        },
        (None, None) => None,
    }
}

fn says_name(s: &str, name: &str) -> (b: bool)
    ensures
        b == says(s@, name@),
{
    holds_text(
        &to_chars(s.to_lowercase().as_str()),
        &to_chars(name.to_lowercase().as_str()),
    )
}

/// Split a device into what the network calls it and what was worked out.
///
/// The first is the raw network identity, and it goes first because it is the
/// actionable half: it is what goes into a firewall rule, a capture filter, or a
/// grep. The second is everything derived, which tells what the thing actually
/// is.
pub fn identity_of(
    ip: &str,
    fqdn: Option<&str>,
    chosen: Option<&str>,
    vendor: Option<&str>,
) -> (out: (String, Option<String>))
    ensures
        out.0@ == primary_of(ip@, borrowed_or(fqdn)),
        spelled_or(out.1) == derived_of(
            borrowed_or(fqdn),
            borrowed_or(chosen),
            borrowed_or(vendor),
        ),
{
    let host = shorten(fqdn);
    let primary = match fqdn {
        Some(n) => with_address(n, ip),
        None => ip.to_owned(),
    };
    let said: bool = match (vendor, &host) {
        (Some(v), Some(h)) => says_name(h.as_str(), v),
        _ => false,
    };
    let derived: Option<String> = match (chosen, vendor) {
        (Some(c), Some(v)) => {
            let mut d: String = c.to_owned();
            if !said {
                d.append(" · ");
                d.append(v);
            }
            Some(d)
        },
        (Some(c), None) => Some(c.to_owned()),
        (None, Some(v)) => if said {
            None
        } else {
            Some(v.to_owned())
        },
        (None, None) => None,
    };
    (primary, derived)
}

/// Which network a source sits on, and who operates it.
pub open spec fn source_of(
    nearby: bool,
    mac: Option<Seq<char>>,
    isp: Option<Seq<char>>,
) -> Seq<char> {
    if nearby {
        match mac {
            Some(m) => "LAN, "@ + m,
            None => "LAN"@,
        }
    } else {
        match isp {
            Some(i) => "internet, "@ + i,
            None => "internet"@,
        }
    }
}

/// Context for a source address beyond its name. Asking whois about a neighbour
/// gives a confident and misleading answer, so a neighbour is described by its
/// MAC and only a distant source by its operator.
pub fn describe_source_at(nearby: bool, mac: Option<&str>, isp: Option<&str>) -> (out: String)
    ensures
        out@ == source_of(nearby, borrowed_or(mac), borrowed_or(isp)),
{
    let (place, found): (&'static str, Option<&str>) = if nearby {
        ("LAN", mac)
    } else {
        ("internet", isp)
    };
    let mut out: String = place.to_owned();
    match found {
        Some(f) => {
            out.append(", ");
            out.append(f);
        },
        None => {},
    }
    proof {
        reveal_strlit("LAN");
        reveal_strlit("LAN, ");
        reveal_strlit("internet");
        reveal_strlit("internet, ");
        reveal_strlit(", ");
        assert("LAN"@ + ", "@ =~= "LAN, "@);
        assert("internet"@ + ", "@ =~= "internet, "@);
    }
    out
}

// -- What lookups answer ------------------------------------------------------

/// The name in the output of `getent hosts`, which is the address, the canonical
/// name and aliases. A name that only repeats the query is none.
pub open spec fn resolved(query: Seq<char>, output: Seq<char>) -> Option<Seq<char>> {
    let w = text::words(output);
    if w.len() < 2 || w[1].len() == 0 || w[1] == query {
        None
    } else {
        Some(w[1])
    }
}

/// The name that a reverse lookup found. `output` is None where the lookup
/// failed or took too long.
pub fn reverse_dns(query: &str, output: Option<&str>) -> (out: Option<String>)
    ensures
        spelled_or(out) == match output {
            Some(t) => resolved(query@, t@),
            None => None,
        },
{
    match output {
        None => None,
        Some(t) => {
            let words = split_words(&to_chars(t));
            let ghost w = text::words(t@);
            assert(forall|k: int| 0 <= k < words@.len() ==> w[k] == (#[trigger] words@[k])@);
            if words.len() < 2 || words[1].len() == 0 || spells(&words[1], query) {
                None
            } else {
                Some(to_text(&words[1]))
            }
        },
    }
}

/// The word behind `lladdr` in the words from `i` on.
pub open spec fn lladdr_from(words: Seq<Seq<char>>, i: int) -> Option<Seq<char>>
    decreases words.len() - i,
{
    if i < 0 || i >= words.len() {
        None
    } else if words[i] == "lladdr"@ {
        if i + 1 < words.len() {
            Some(words[i + 1])
        } else {
            None
        }
    } else {
        lladdr_from(words, i + 1)
    }
}

/// The MAC in the output of `ip neigh show`, or None where it could not be run.
pub fn neighbour_mac(output: Option<&str>) -> (out: Option<String>)
    ensures
        spelled_or(out) == match output {
            Some(t) => lladdr_from(text::words(t@), 0),
            None => None,
        },
{
    match output {
        None => None,
        Some(t) => {
            let words = split_words(&to_chars(t));
            let ghost w = text::words(t@);
            let mut i: usize = 0;
            while i < words.len()
                invariant
                    i <= words.len(),
                    w == text::spelled(words@),
                    w == text::words(t@),
                    output == Some(t),
                    lladdr_from(w, 0) == lladdr_from(w, i as int),
                decreases words.len() - i,
            {
                assert(w[i as int] == words@[i as int]@);
                if spells(&words[i], "lladdr") {
                    if i + 1 < words.len() {
                        assert(w[i + 1] == words@[i + 1]@);
                        return Some(to_text(&words[i + 1]));
                    }
                    return None;
                }
                i = i + 1;
            }
            None
        },
    }
}

/// What stands behind a prefix on the lines from `i` on: the first line that
/// begins with the prefix decides.
pub open spec fn behind_from(lines: Seq<Seq<char>>, prefix: Seq<char>, i: int) -> Option<Seq<char>>
    decreases lines.len() - i,
{
    if i < 0 || i >= lines.len() {
        None
    } else if text::begins(lines[i], prefix) {
        let rest = text::trim(lines[i].skip(prefix.len() as int));
        if rest.len() > 0 {
            Some(rest)
        } else {
            None
        }
    } else {
        behind_from(lines, prefix, i + 1)
    }
}

/// The registered owner that the output of `systemd-hwdb query` names.
pub open spec fn owner_in(output: Seq<char>) -> Option<Seq<char>> {
    behind_from(text::lines(output), "ID_OUI_FROM_DATABASE="@, 0)
}

/// The registered owner of a MAC prefix in the output of `systemd-hwdb query`,
/// or None where it could not be run.
pub fn hwdb_oui(output: Option<&str>) -> (out: Option<String>)
    ensures
        spelled_or(out) == match output {
            Some(t) => owner_in(t@),
            None => None,
        },
{
    match output {
        None => None,
        Some(t) => {
            let lines = split_lines(&to_chars(t));
            let ghost model = text::lines(t@);
            let ghost prefix = "ID_OUI_FROM_DATABASE="@;
            let mut i: usize = 0;
            while i < lines.len()
                invariant
                    i <= lines.len(),
                    model == text::spelled(lines@),
                    model == text::lines(t@),
                    output == Some(t),
                    prefix == "ID_OUI_FROM_DATABASE="@,
                    behind_from(model, prefix, 0) == behind_from(model, prefix, i as int),
                decreases lines.len() - i,
            {
                assert(model[i as int] == lines@[i as int]@);
                match after_prefix(&lines[i], "ID_OUI_FROM_DATABASE=") {
                    Some(rest) => {
                        let value = trimmed(&rest);
                        return if value.len() > 0 {
                            Some(to_text(&value))
                        } else {
                            None
                        };
                    },
                    None => {},
                }
                i = i + 1;
            }
            None
        },
    }
}

/// The fields of a whois answer that may name an organisation, the better ones
/// first.
pub open spec fn org_fields() -> Seq<Seq<char>> {
    seq!["OrgName:"@, "org-name:"@, "netname:"@, "descr:"@, "Organization:"@]
}

/// The value of a whois field on the lines from `i` on: the first that is not
/// empty.
pub open spec fn whois_field(lines: Seq<Seq<char>>, field: Seq<char>, i: int) -> Option<Seq<char>>
    decreases lines.len() - i,
{
    if i < 0 || i >= lines.len() {
        None
    } else {
        let line = text::trim(lines[i]);
        let rest = text::trim(line.skip(field.len() as int));
        if text::begins(line, field) && rest.len() > 0 {
            Some(rest)
        } else {
            whois_field(lines, field, i + 1)
        }
    }
}

/// The organisation that a whois answer names, by its fields from `k` on.
pub open spec fn org_from(lines: Seq<Seq<char>>, k: int) -> Option<Seq<char>>
    decreases org_fields().len() - k,
{
    if k < 0 || k >= org_fields().len() {
        None
    } else if whois_field(lines, org_fields()[k], 0) is Some {
        whois_field(lines, org_fields()[k], 0)
    } else {
        org_from(lines, k + 1)
    }
}

pub open spec fn org_in(output: Seq<char>) -> Option<Seq<char>> {
    org_from(text::lines(output), 0)
}

fn read_whois_field(lines: &Vec<Vec<char>>, field: &str) -> (out: Option<String>)
    ensures
        spelled_or(out) == whois_field(text::spelled(lines@), field@, 0),
{
    let ghost model = text::spelled(lines@);
    let mut i: usize = 0;
    while i < lines.len()
        invariant
            i <= lines.len(),
            model == text::spelled(lines@),
            whois_field(model, field@, 0) == whois_field(model, field@, i as int),
        decreases lines.len() - i,
    {
        assert(model[i as int] == lines@[i as int]@);
        match after_prefix(&trimmed(&lines[i]), field) {
            Some(rest) => {
                let name = trimmed(&rest);
                if name.len() > 0 {
                    return Some(to_text(&name));
                }
            },
            None => {},
        }
        i = i + 1;
    }
    None
}

/// The organisation that a whois answer names, or None where there is no answer
/// or it names none.
pub fn whois_answer(output: Option<&str>) -> (out: Option<String>)
    ensures
        spelled_or(out) == match output {
            Some(t) => org_in(t@),
            None => None,
        },
{
    match output {
        None => None,
        Some(t) => {
            let lines = split_lines(&to_chars(t));
            proof {
                reveal_with_fuel(org_from, 6);
            }
            match read_whois_field(&lines, "OrgName:") {
                Some(s) => {
                    return Some(s);
                },
                None => {},
            }
            match read_whois_field(&lines, "org-name:") {
                Some(s) => {
                    return Some(s);
                },
                None => {},
            }
            match read_whois_field(&lines, "netname:") {
                Some(s) => {
                    return Some(s);
                },
                None => {},
            }
            match read_whois_field(&lines, "descr:") {
                Some(s) => {
                    return Some(s);
                },
                None => {},
            }
            read_whois_field(&lines, "Organization:")
        },
    }
}

/// An organisation, or a question mark in its place.
pub open spec fn org_or_unknown(org: Option<Seq<char>>) -> Seq<char> {
    match org {
        Some(s) => s,
        None => "?"@,
    }
}

/// The organisation that a whois answer names, a question mark where it names
/// none.
pub fn run_whois(output: Option<&str>) -> (out: String)
    ensures
        out@ == org_or_unknown(
            match output {
                Some(t) => org_in(t@),
                None => None,
            },
        ),
{
    match whois_answer(output) {
        Some(s) => s,
        None => "?".to_owned(),
    }
}

// -- What is remembered -------------------------------------------------------

/// How long a resolved, or unresolved, name is reused before asking again. Long
/// enough that a tick never asks twice, short enough that a DHCP reassignment
/// stops being attributed to the address's previous holder.
pub const NAME_TTL_SECS: i64 = 300;

/// How long a whois answer is reused. Ownership does not move on DHCP
/// timescales.
pub const WHOIS_TTL_SECS: i64 = 3600;

/// Answers with the time at which they were given. An answer may be that there
/// is none.
pub type Dated = Table<(Option<String>, i64)>;

/// The answer for a key that is still believed, if there is one.
pub open spec fn fresh(
    cache: Map<Seq<char>, (Option<String>, i64)>,
    key: Seq<char>,
    now: i64,
    ttl: i64,
) -> Option<Option<Seq<char>>> {
    if cache.dom().contains(key) && now - cache[key].1 < ttl {
        Some(spelled_or(cache[key].0))
    } else {
        None
    }
}

/// The name that is still believed, if there is one: a miss is not "no name",
/// it is "not resolved yet".
pub open spec fn known(
    cache: Map<Seq<char>, (Option<String>, i64)>,
    key: Seq<char>,
    now: i64,
    ttl: i64,
) -> Option<Seq<char>> {
    match fresh(cache, key, now, ttl) {
        Some(answer) => answer,
        None => None,
    }
}

fn copy_answer(s: &Option<String>) -> (out: Option<String>)
    ensures
        spelled_or(out) == spelled_or(*s),
{
    match s {
        Some(t) => Some(t.clone()),
        None => None,
    }
}

fn find_fresh(cache: &Dated, key: &str, now: i64, ttl: i64) -> (out: Option<Option<String>>)
    ensures
        match out {
            Some(answer) => fresh(cache@, key@, now, ttl) == Some(spelled_or(answer)),
            None => fresh(cache@, key@, now, ttl) is None,
        },
{
    match cache.get(key) {
        Some(entry) => if (now as i128) - (entry.1 as i128) < ttl as i128 {
            Some(copy_answer(&entry.0))
        } else {
            None
        },
        None => None,
    }
}

/// The first three groups of a MAC address, in uppercase.
pub open spec fn oui_text(mac: Seq<char>) -> Seq<char> {
    text::uppercased(joined_upto(text::pieces(mac, ':'), 3))
}

/// The first `n` pieces in one, as far as there are so many.
pub open spec fn joined_upto(pieces: Seq<Seq<char>>, n: int) -> Seq<char>
    decreases n,
{
    if n <= 0 {
        Seq::empty()
    } else if n <= pieces.len() {
        joined_upto(pieces, n - 1) + pieces[n - 1]
    } else {
        joined_upto(pieces, n - 1)
    }
}

/// The key of a MAC in the hardware database: six characters.
pub open spec fn oui_of(mac: Option<Seq<char>>) -> Option<Seq<char>> {
    match mac {
        Some(m) => if utf8_len(oui_text(m)) == 6 {
            Some(oui_text(m))
        } else {
            None
        },
        None => None,
    }
}

/// The prefix under which the hardware database lists a MAC's vendor.
pub fn oui(mac: Option<&str>) -> (out: Option<String>)
    ensures
        spelled_or(out) == oui_of(borrowed_or(mac)),
{
    match mac {
        None => None,
        Some(m) => {
            let pieces = split_char(&to_chars(m), ':');
            let ghost p = text::pieces(m@, ':');
            let mut joined: String = String::new();
            let mut i: usize = 0;
            assert(joined@ =~= joined_upto(p, 0));
            while i < 3
                invariant
                    i <= 3,
                    p == text::spelled(pieces@),
                    joined@ == joined_upto(p, i as int),
                decreases 3 - i,
            {
                if i < pieces.len() {
                    assert(p[i as int] == pieces@[i as int]@);
                    joined.append(to_text(&pieces[i]).as_str());
                }
                i = i + 1;
            }
            let upper = joined.as_str().to_uppercase();
            if byte_length(&to_chars(upper.as_str())) == 6 {
                Some(upper)
            } else {
                None
            }
        },
    }
}

/// What is remembered of an address in `after`, where it has been looked up if
/// need be: an answer still believed is kept, else what was found takes its
/// place.
pub open spec fn remembers(
    before: Dated,
    after: Dated,
    ip: Seq<char>,
    found: Option<Seq<char>>,
    now: i64,
    ttl: i64,
) -> bool {
    match fresh(before@, ip, now, ttl) {
        Some(_) => after == before,
        None => exists|kept: Option<String>|
            spelled_or(kept) == found && after@ == #[trigger] before@.insert(ip, (kept, now)),
    }
}

/// Everything known about what devices are called.
pub struct NameBook {
    /// Names chosen for devices, keyed by lowercase MAC or by address.
    pub chosen: Table<String>,
    /// Hostnames by address.
    pub hostnames: Dated,
    /// Vendors by MAC prefix. A registry entry does not change, so these are
    /// believed for good, unregistered prefixes too.
    pub vendors: Table<Option<String>>,
    /// Operators by address, as whois names them.
    pub orgs: Dated,
}

impl NameBook {
    pub open spec fn wf(self) -> bool {
        &&& self.chosen.wf()
        &&& self.hostnames.wf()
        &&& self.vendors.wf()
        &&& self.orgs.wf()
    }

    /// The name chosen for a device: by its address, else by its MAC, which
    /// survives a DHCP reshuffle.
    pub open spec fn name_chosen(self, ip: Seq<char>, mac: Option<Seq<char>>) -> Option<Seq<char>> {
        if self.chosen@.dom().contains(ip) {
            Some(self.chosen@[ip]@)
        } else if mac is Some && self.chosen@.dom().contains(text::lowercased(mac.unwrap())) {
            Some(self.chosen@[text::lowercased(mac.unwrap())]@)
        } else {
            None
        }
    }

    /// The hostname known for an address.
    pub open spec fn hostname(self, ip: Seq<char>, now: i64) -> Option<Seq<char>> {
        known(self.hostnames@, ip, now, NAME_TTL_SECS)
    }

    /// The operator known for an address.
    pub open spec fn org(self, ip: Seq<char>, now: i64) -> Option<Seq<char>> {
        known(self.orgs@, ip, now, WHOIS_TTL_SECS)
    }

    /// The vendor known behind a MAC.
    pub open spec fn vendor(self, mac: Option<Seq<char>>) -> Option<Seq<char>> {
        match oui_of(mac) {
            Some(oui) => if self.vendors@.dom().contains(oui) {
                spelled_or(self.vendors@[oui])
            } else {
                None
            },
            None => None,
        }
    }

    /// The hostname of an address, where the resolver has been asked if need be
    /// and `found` is what it answered.
    pub open spec fn hostname_given(
        self,
        ip: Seq<char>,
        found: Option<Seq<char>>,
        now: i64,
    ) -> Option<Seq<char>> {
        match fresh(self.hostnames@, ip, now, NAME_TTL_SECS) {
            Some(answer) => answer,
            None => found,
        }
    }

    /// The operator of an address, where whois has been asked if need be.
    pub open spec fn org_given(
        self,
        ip: Seq<char>,
        found: Option<Seq<char>>,
        now: i64,
    ) -> Option<Seq<char>> {
        match fresh(self.orgs@, ip, now, WHOIS_TTL_SECS) {
            Some(answer) => answer,
            None => found,
        }
    }

    /// The vendor behind a MAC, where the hardware database has been asked if
    /// need be.
    pub open spec fn vendor_given(
        self,
        mac: Option<Seq<char>>,
        listed: Option<Seq<char>>,
    ) -> Option<Seq<char>> {
        match oui_of(mac) {
            None => None,
            Some(key) => if self.vendors@.dom().contains(key) {
                spelled_or(self.vendors@[key])
            } else {
                match listed {
                    Some(raw) => Some(tidied(raw)),
                    None => None,
                }
            },
        }
    }

    /// What is remembered of vendors in `after`, where the hardware database has
    /// been asked if need be: a prefix not seen before is added, with what is
    /// listed for it.
    pub open spec fn remembers_vendor(
        self,
        after: NameBook,
        mac: Option<Seq<char>>,
        listed: Option<Seq<char>>,
    ) -> bool {
        match oui_of(mac) {
            None => after.vendors == self.vendors,
            Some(key) => if self.vendors@.dom().contains(key) {
                after.vendors == self.vendors
            } else {
                exists|kept: Option<String>|
                    spelled_or(kept) == self.vendor_given(mac, listed) && after.vendors@
                        == #[trigger] self.vendors@.insert(key, kept)
            },
        }
    }

    pub fn new(chosen: Table<String>) -> (out: NameBook)
        requires
            chosen.wf(),
        ensures
            out.wf(),
            out.chosen == chosen,
            out.hostnames@ == Map::<Seq<char>, (Option<String>, i64)>::empty(),
            out.vendors@ == Map::<Seq<char>, Option<String>>::empty(),
            out.orgs@ == Map::<Seq<char>, (Option<String>, i64)>::empty(),
    {
        NameBook {
            chosen,
            hostnames: Table::new(),
            vendors: Table::new(),
            orgs: Table::new(),
        }
    }

    /// The name chosen for this device, if it was named.
    pub fn chosen_name(&self, ip: &str, mac: Option<&str>) -> (out: Option<String>)
        ensures
            spelled_or(out) == self.name_chosen(ip@, borrowed_or(mac)),
    {
        match self.chosen.get(ip) {
            Some(name) => {
                return Some(name.clone());
            },
            None => {},
        }
        match mac {
            Some(m) => match self.chosen.get(m.to_lowercase().as_str()) {
                Some(name) => Some(name.clone()),
                None => None,
            },
            None => None,
        }
    }

    /// Has the resolver to be asked about this address?
    pub fn needs_hostname(&self, ip: &str, now: i64) -> (b: bool)
        ensures
            b == fresh(self.hostnames@, ip@, now, NAME_TTL_SECS) is None,
    {
        find_fresh(&self.hostnames, ip, now, NAME_TTL_SECS).is_none()
    }

    /// The cached hostname, or None; never a lookup.
    pub fn hostname_cached(&self, ip: &str, now: i64) -> (out: Option<String>)
        ensures
            spelled_or(out) == self.hostname(ip@, now),
    {
        match find_fresh(&self.hostnames, ip, now, NAME_TTL_SECS) {
            Some(answer) => answer,
            None => None,
        }
    }

    /// The hostname of an address: the cached one where it is still believed,
    /// else what the resolver found, which is then remembered. That it found
    /// nothing is remembered too.
    pub fn hostname_for(&mut self, ip: &str, found: Option<&str>, now: i64) -> (out: Option<String>)
        requires
            old(self).wf(),
        ensures
            final(self).wf(),
            final(self).chosen == old(self).chosen,
            final(self).vendors == old(self).vendors,
            final(self).orgs == old(self).orgs,
            spelled_or(out) == old(self).hostname_given(ip@, borrowed_or(found), now),
            remembers(
                old(self).hostnames,
                final(self).hostnames,
                ip@,
                borrowed_or(found),
                now,
                NAME_TTL_SECS,
            ),
    {
        match find_fresh(&self.hostnames, ip, now, NAME_TTL_SECS) {
            Some(answer) => {
                return answer;
            },
            None => {},
        }
        let kept: Option<String> = match found {
            Some(t) => Some(t.to_owned()),
            None => None,
        };
        let out = copy_answer(&kept);
        self.hostnames.put(ip.to_owned(), (kept, now));
        assert(spelled_or(kept) == borrowed_or(found));
        out
    }

    /// Has whois to be asked about this address?
    pub fn needs_org(&self, ip: &str, now: i64) -> (b: bool)
        ensures
            b == fresh(self.orgs@, ip@, now, WHOIS_TTL_SECS) is None,
    {
        find_fresh(&self.orgs, ip, now, WHOIS_TTL_SECS).is_none()
    }

    /// The cached whois answer, or None; never a lookup.
    pub fn whois_org_cached(&self, ip: &str, now: i64) -> (out: Option<String>)
        ensures
            spelled_or(out) == self.org(ip@, now),
    {
        match find_fresh(&self.orgs, ip, now, WHOIS_TTL_SECS) {
            Some(answer) => answer,
            None => None,
        }
    }

    /// The operator of an address: the cached one where it is still believed,
    /// else what whois answered, which is then remembered.
    pub fn whois_org(&mut self, ip: &str, found: Option<&str>, now: i64) -> (out: Option<String>)
        requires
            old(self).wf(),
        ensures
            final(self).wf(),
            final(self).chosen == old(self).chosen,
            final(self).vendors == old(self).vendors,
            final(self).hostnames == old(self).hostnames,
            spelled_or(out) == old(self).org_given(ip@, borrowed_or(found), now),
            remembers(
                old(self).orgs,
                final(self).orgs,
                ip@,
                borrowed_or(found),
                now,
                WHOIS_TTL_SECS,
            ),
    {
        match find_fresh(&self.orgs, ip, now, WHOIS_TTL_SECS) {
            Some(answer) => {
                return answer;
            },
            None => {},
        }
        let kept: Option<String> = match found {
            Some(t) => Some(t.to_owned()),
            None => None,
        };
        let out = copy_answer(&kept);
        self.orgs.put(ip.to_owned(), (kept, now));
        assert(spelled_or(kept) == borrowed_or(found));
        out
    }

    /// Has the hardware database to be asked about this MAC?
    pub fn needs_vendor(&self, mac: Option<&str>) -> (b: bool)
        ensures
            b == (oui_of(borrowed_or(mac)) is Some && !self.vendors@.dom().contains(
                oui_of(borrowed_or(mac)).unwrap(),
            )),
    {
        match oui(mac) {
            Some(key) => self.vendors.get(key.as_str()).is_none(),
            None => false,
        }
    }

    /// The vendor remembered behind a MAC, or None; never a lookup.
    pub fn vendor_cached(&self, mac: Option<&str>) -> (out: Option<String>)
        ensures
            spelled_or(out) == self.vendor(borrowed_or(mac)),
    {
        match oui(mac) {
            Some(key) => match self.vendors.get(key.as_str()) {
                Some(found) => copy_answer(found),
                None => None,
            },
            None => None,
        }
    }

    /// The vendor behind a MAC: the remembered one, else what the hardware
    /// database lists, tidied, which is then remembered. A MAC too short to have
    /// a vendor has none.
    pub fn vendor_for(&mut self, mac: Option<&str>, listed: Option<&str>) -> (out: Option<String>)
        requires
            old(self).wf(),
        ensures
            final(self).wf(),
            final(self).chosen == old(self).chosen,
            final(self).hostnames == old(self).hostnames,
            final(self).orgs == old(self).orgs,
            spelled_or(out) == old(self).vendor_given(borrowed_or(mac), borrowed_or(listed)),
            old(self).remembers_vendor(*final(self), borrowed_or(mac), borrowed_or(listed)),
    {
        match oui(mac) {
            None => None,
            Some(key) => {
                match self.vendors.get(key.as_str()) {
                    Some(found) => {
                        return copy_answer(found);
                    },
                    None => {},
                }
                let kept: Option<String> = match listed {
                    Some(raw) => Some(tidy_vendor(raw)),
                    None => None,
                };
                let out = copy_answer(&kept);
                self.vendors.put(key, kept);
                assert(spelled_or(kept) == spelled_or(out));
                out
            },
        }
    }

    /// Name a device from what is known, e.g. `caldera.lan (10.3.59.7)`. Never a
    /// lookup, so it is safe on the detector loop.
    pub fn device_label_cached(&self, ip: &str, mac: Option<&str>, now: i64) -> (out: String)
        ensures
            out@ == self.label(ip@, borrowed_or(mac), now),
    {
        let chosen = self.chosen_name(ip, mac);
        let hostname = self.hostname_cached(ip, now);
        let vendor = self.vendor_cached(mac);
        label(ip, borrow(&chosen), borrow(&hostname), borrow(&vendor))
    }

    /// The label of a device from what is known.
    pub open spec fn label(self, ip: Seq<char>, mac: Option<Seq<char>>, now: i64) -> Seq<char> {
        label_of(ip, self.name_chosen(ip, mac), self.hostname(ip, now), self.vendor(mac))
    }

    /// Name a device, where what is not known of it has been looked up: `found`
    /// is what the resolver answered, `listed` what the hardware database lists.
    pub fn device_label(
        &mut self,
        ip: &str,
        mac: Option<&str>,
        found: Option<&str>,
        listed: Option<&str>,
        now: i64,
    ) -> (out: String)
        requires
            old(self).wf(),
        ensures
            final(self).wf(),
            final(self).chosen == old(self).chosen,
            final(self).orgs == old(self).orgs,
            remembers(
                old(self).hostnames,
                final(self).hostnames,
                ip@,
                borrowed_or(found),
                now,
                NAME_TTL_SECS,
            ),
            old(self).remembers_vendor(*final(self), borrowed_or(mac), borrowed_or(listed)),
            out@ == label_of(
                ip@,
                old(self).name_chosen(ip@, borrowed_or(mac)),
                old(self).hostname_given(ip@, borrowed_or(found), now),
                old(self).vendor_given(borrowed_or(mac), borrowed_or(listed)),
            ),
    {
        let chosen = self.chosen_name(ip, mac);
        let hostname = self.hostname_for(ip, found, now);
        let vendor = self.vendor_for(mac, listed);
        label(ip, borrow(&chosen), borrow(&hostname), borrow(&vendor))
    }

    /// What the network calls a device and what was worked out, where what is
    /// not known of it has been looked up.
    pub fn identity(
        &mut self,
        ip: &str,
        mac: Option<&str>,
        found: Option<&str>,
        listed: Option<&str>,
        now: i64,
    ) -> (out: (String, Option<String>))
        requires
            old(self).wf(),
        ensures
            final(self).wf(),
            final(self).chosen == old(self).chosen,
            final(self).orgs == old(self).orgs,
            remembers(
                old(self).hostnames,
                final(self).hostnames,
                ip@,
                borrowed_or(found),
                now,
                NAME_TTL_SECS,
            ),
            old(self).remembers_vendor(*final(self), borrowed_or(mac), borrowed_or(listed)),
            out.0@ == primary_of(ip@, old(self).hostname_given(ip@, borrowed_or(found), now)),
            spelled_or(out.1) == derived_of(
                old(self).hostname_given(ip@, borrowed_or(found), now),
                old(self).name_chosen(ip@, borrowed_or(mac)),
                old(self).vendor_given(borrowed_or(mac), borrowed_or(listed)),
            ),
    {
        let chosen = self.chosen_name(ip, mac);
        let hostname = self.hostname_for(ip, found, now);
        let vendor = self.vendor_for(mac, listed);
        identity_of(ip, borrow(&hostname), borrow(&chosen), borrow(&vendor))
    }

    /// Context for a source, where whois has been asked if need be and `found`
    /// is what it answered.
    pub fn describe_source(
        &mut self,
        ip: &str,
        nearby: bool,
        mac: Option<&str>,
        found: Option<&str>,
        now: i64,
    ) -> (out: String)
        requires
            old(self).wf(),
        ensures
            final(self).wf(),
            final(self).chosen == old(self).chosen,
            final(self).hostnames == old(self).hostnames,
            final(self).vendors == old(self).vendors,
            if nearby {
                final(self).orgs == old(self).orgs
            } else {
                remembers(
                    old(self).orgs,
                    final(self).orgs,
                    ip@,
                    borrowed_or(found),
                    now,
                    WHOIS_TTL_SECS,
                )
            },
            out@ == source_of(
                nearby,
                borrowed_or(mac),
                old(self).org_given(ip@, borrowed_or(found), now),
            ),
    {
        if nearby {
            return describe_source_at(true, mac, None);
        }
        let isp = self.whois_org(ip, found, now);
        describe_source_at(false, mac, borrow(&isp))
    }

    /// What the network calls a device and what was worked out, from what is
    /// known. Never a lookup.
    pub fn identity_cached(&self, ip: &str, mac: Option<&str>, now: i64) -> (out: (
        String,
        Option<String>,
    ))
        ensures
            out.0@ == primary_of(ip@, self.hostname(ip@, now)),
            spelled_or(out.1) == derived_of(
                self.hostname(ip@, now),
                self.name_chosen(ip@, borrowed_or(mac)),
                self.vendor(borrowed_or(mac)),
            ),
    {
        let chosen = self.chosen_name(ip, mac);
        let hostname = self.hostname_cached(ip, now);
        let vendor = self.vendor_cached(mac);
        identity_of(ip, borrow(&hostname), borrow(&chosen), borrow(&vendor))
    }

    /// Context for a source from what is known: an internet source is just
    /// "internet" until whois has been asked. Never a lookup.
    pub fn describe_source_cached(
        &self,
        ip: &str,
        nearby: bool,
        mac: Option<&str>,
        now: i64,
    ) -> (out: String)
        ensures
            out@ == source_of(nearby, borrowed_or(mac), self.org(ip@, now)),
    {
        let isp = self.whois_org_cached(ip, now);
        describe_source_at(nearby, mac, borrow(&isp))
    }
}

pub fn borrow(s: &Option<String>) -> (out: Option<&str>)
    ensures
        borrowed_or(out) == spelled_or(*s),
{
    match s {
        Some(t) => Some(t.as_str()),
        None => None,
    }
}

// -- Laws ---------------------------------------------------------------------

/// A name chosen by the owner beats anything that can be discovered.
pub proof fn a_chosen_name_always_wins(
    ip: Seq<char>,
    chosen: Seq<char>,
    hostname: Option<Seq<char>>,
    vendor: Option<Seq<char>>,
)
    ensures
        label_of(ip, Some(chosen), hostname, vendor) == named(chosen, ip),
{
}

/// A name never stands without the address: the label of a device is its
/// address, or ends in it.
pub proof fn the_address_is_always_kept(
    ip: Seq<char>,
    chosen: Option<Seq<char>>,
    hostname: Option<Seq<char>>,
    vendor: Option<Seq<char>>,
)
    ensures
        label_of(ip, chosen, hostname, vendor) == ip || exists|name: Seq<char>|
            label_of(ip, chosen, hostname, vendor) == #[trigger] named(name, ip),
{
    let short = short_name(hostname);
    if chosen is Some {
        assert(label_of(ip, chosen, hostname, vendor) == named(chosen.unwrap(), ip));
    } else if short is Some && !machine_generated(short.unwrap()) {
        assert(label_of(ip, chosen, hostname, vendor) == named(hostname.unwrap(), ip));
    } else if vendor is Some {
        assert(label_of(ip, chosen, hostname, vendor) == named(vendor.unwrap(), ip));
    } else if short is Some {
        assert(label_of(ip, chosen, hostname, vendor) == named(short.unwrap(), ip));
    }
}

/// A name that no human picked gives way to the vendor.
pub proof fn a_serial_gives_way_to_the_vendor(
    ip: Seq<char>,
    hostname: Seq<char>,
    vendor: Seq<char>,
)
    requires
        short_name(Some(hostname)) is Some ==> machine_generated(
            short_name(Some(hostname)).unwrap(),
        ),
    ensures
        label_of(ip, None, Some(hostname), Some(vendor)) == named(vendor, ip),
{
}

proof fn lemma_shed_leaves_something(name: Seq<char>, n: int)
    requires
        name.len() > 0,
        n <= vendor_noise().len(),
    ensures
        shed_upto(name, n).len() > 0,
    decreases n,
{
    if n > 0 {
        lemma_shed_leaves_something(name, n - 1);
    }
}

/// Tidying never strips a vendor's name down to nothing: a round of shedding
/// leaves something of every name that is not empty.
pub proof fn shedding_never_leaves_nothing(name: Seq<char>, rounds: nat)
    requires
        name.len() > 0,
    ensures
        shed_all(name, rounds).len() > 0,
    decreases rounds,
{
    lemma_shed_leaves_something(name, vendor_noise().len() as int);
    if rounds > 0 {
        shedding_never_leaves_nothing(
            shed_upto(name, vendor_noise().len() as int),
            (rounds - 1) as nat,
        );
    }
}

/// A word that is boilerplate, whatever the case of its letters.
pub open spec fn is_noise(word: Seq<char>) -> bool {
    exists|i: int|
        0 <= i < vendor_noise().len() && text::same_ignoring_case(
            seq![' '] + word,
            #[trigger] vendor_noise()[i],
        )
}

/// Some words at the end were dropped, and each of them is boilerplate.
pub open spec fn only_noise_dropped(before: Seq<Seq<char>>, after: Seq<Seq<char>>) -> bool {
    &&& after.len() <= before.len()
    &&& after == before.take(after.len() as int)
    &&& forall|j: int| after.len() <= j < before.len() ==> is_noise(#[trigger] before[j])
}

spec fn noise_shape(s: Seq<char>) -> bool {
    s.len() >= 2 && s[0] == ' ' && forall|k: int| 1 <= k < s.len() ==> !text::is_space(
        #[trigger] s[k],
    )
}

proof fn lemma_noise_shape(i: int)
    requires
        0 <= i < vendor_noise().len(),
    ensures
        noise_shape(vendor_noise()[i]),
{
    reveal_strlit(" Inc.");
    reveal_strlit(" Inc");
    reveal_strlit(" Corp.");
    reveal_strlit(" Corp");
    reveal_strlit(" Corporation");
    reveal_strlit(" Corporate");
    reveal_strlit(" Company");
    reveal_strlit(" Co.");
    reveal_strlit(" Co");
    reveal_strlit(" Ltd.");
    reveal_strlit(" Ltd");
    reveal_strlit(" Limited");
    reveal_strlit(" LLC");
    reveal_strlit(" L.L.C.");
    reveal_strlit(" GmbH");
    reveal_strlit(" AG");
    reveal_strlit(" B.V.");
    reveal_strlit(" N.V.");
    reveal_strlit(" S.A.");
    reveal_strlit(" PLC");
    reveal_strlit(" Pte");
    reveal_strlit(" Pty");
    reveal_strlit(" Technologies");
    reveal_strlit(" Technology");
    reveal_strlit(" Electronics");
    reveal_strlit(" Electronic");
    reveal_strlit(" Systems");
    reveal_strlit(" Networks");
    reveal_strlit(" Solutions");
    reveal_strlit(" Communications");
    assert(noise_shape(" Inc."@));
    assert(noise_shape(" Inc"@));
    assert(noise_shape(" Corp."@));
    assert(noise_shape(" Corp"@));
    assert(noise_shape(" Corporation"@));
    assert(noise_shape(" Corporate"@));
    assert(noise_shape(" Company"@));
    assert(noise_shape(" Co."@));
    assert(noise_shape(" Co"@));
    assert(noise_shape(" Ltd."@));
    assert(noise_shape(" Ltd"@));
    assert(noise_shape(" Limited"@));
    assert(noise_shape(" LLC"@));
    assert(noise_shape(" L.L.C."@));
    assert(noise_shape(" GmbH"@));
    assert(noise_shape(" AG"@));
    assert(noise_shape(" B.V."@));
    assert(noise_shape(" N.V."@));
    assert(noise_shape(" S.A."@));
    assert(noise_shape(" PLC"@));
    assert(noise_shape(" Pte"@));
    assert(noise_shape(" Pty"@));
    assert(noise_shape(" Technologies"@));
    assert(noise_shape(" Technology"@));
    assert(noise_shape(" Electronics"@));
    assert(noise_shape(" Electronic"@));
    assert(noise_shape(" Systems"@));
    assert(noise_shape(" Networks"@));
    assert(noise_shape(" Solutions"@));
    assert(noise_shape(" Communications"@));
}

proof fn lemma_suffix_is_a_word(name: Seq<char>, i: int)
    requires
        0 <= i < vendor_noise().len(),
        before_suffix(name, vendor_noise()[i]) is Some,
    ensures
        ({
            let head = before_suffix(name, vendor_noise()[i]).unwrap();
            let word = name.skip(head.len() as int + 1);
            &&& head.len() < name.len()
            &&& text::is_word(word)
            &&& is_noise(word)
            &&& name == head + seq![' '] + word
        }),
{
    let noise = vendor_noise()[i];
    lemma_noise_shape(i);
    let split = name.len() - noise.len();
    let head = name.take(split);
    let tail = name.skip(split);
    let word = name.skip(split + 1);
    let a = text::ascii_lowered(tail);
    let b = text::ascii_lowered(noise);
    assert(a.len() == tail.len() && b.len() == noise.len());
    assert forall|k: int| 0 <= k < tail.len() implies text::is_space(#[trigger] tail[k])
        == text::is_space(noise[k]) && (text::is_space(tail[k]) ==> tail[k] == noise[k]) by {
        assert(a[k] == text::ascii_lower(tail[k]));
        assert(b[k] == text::ascii_lower(noise[k]));
    }
    assert(text::is_space(' '));
    assert(text::is_space(noise[0]));
    assert(tail[0] == ' ');
    assert forall|k: int| 0 <= k < word.len() implies !text::is_space(#[trigger] word[k]) by {
        assert(word[k] == tail[k + 1]);
        assert(!text::is_space(noise[k + 1]));
    }
    assert(seq![' '] + word =~= tail);
    assert(name =~= head + seq![' '] + word);
}

/// What shedding makes of a name: the same name, or the name without its last
/// word, which was boilerplate and not the only word.
spec fn shed_one_word(name: Seq<char>, after: Seq<char>) -> bool {
    &&& 0 < after.len() < name.len()
    &&& after == name.take(after.len() as int)
    &&& !text::is_space(after[after.len() - 1])
    &&& text::words(name).len() >= 2
    &&& text::words(after) == text::words(name).drop_last()
    &&& is_noise(text::words(name).last())
}

proof fn lemma_shed(name: Seq<char>, i: int)
    requires
        0 <= i < vendor_noise().len(),
    ensures
        shed(name, vendor_noise()[i]) == name || shed_one_word(
            name,
            shed(name, vendor_noise()[i]),
        ),
{
    let after = shed(name, vendor_noise()[i]);
    if after != name {
        let head = before_suffix(name, vendor_noise()[i]).unwrap();
        let word = name.skip(head.len() as int + 1);
        lemma_suffix_is_a_word(name, i);
        text::a_word_at_the_end_is_one_more(head, ' ', word);
        text::space_at_the_end_is_no_word(head);
        text::lemma_before_space(head, head.len() as int);
        assert(text::words(name).drop_last() =~= text::words(head));
        text::a_text_ends_in_its_last_word(after);
        assert(after =~= name.take(after.len() as int));
    }
}

/// What a run of shedding makes of a name.
spec fn shed_some_words(name: Seq<char>, after: Seq<char>) -> bool {
    &&& name.len() > 0 ==> after.len() > 0
    &&& after.len() <= name.len()
    &&& after == name.take(after.len() as int)
    &&& only_noise_dropped(text::words(name), text::words(after))
    &&& after != name ==> !text::is_space(after[after.len() - 1])
}

proof fn lemma_shed_more(name: Seq<char>, between: Seq<char>, after: Seq<char>)
    requires
        shed_some_words(name, between),
        shed_some_words(between, after),
    ensures
        shed_some_words(name, after),
{
    let a = text::words(name);
    let b = text::words(between);
    let c = text::words(after);
    assert(after =~= name.take(after.len() as int));
    assert(c =~= a.take(c.len() as int));
    assert forall|j: int| c.len() <= j < a.len() implies is_noise(#[trigger] a[j]) by {
        if j < b.len() {
            assert(b[j] == a[j]);
        }
    }
}

proof fn lemma_shed_upto(name: Seq<char>, n: int)
    requires
        n <= vendor_noise().len(),
    ensures
        shed_some_words(name, shed_upto(name, n)),
    decreases n,
{
    if n <= 0 {
        assert(name =~= name.take(name.len() as int));
        let w = text::words(name);
        assert(w =~= w.take(w.len() as int));
    } else {
        lemma_shed_upto(name, n - 1);
        let between = shed_upto(name, n - 1);
        let after = shed_upto(name, n);
        lemma_shed(between, n - 1);
        let w = text::words(between);
        if after == between {
            assert(between =~= between.take(between.len() as int));
            assert(w =~= w.take(w.len() as int));
        } else {
            let v = text::words(after);
            assert(v =~= w.take(v.len() as int));
            assert forall|j: int| v.len() <= j < w.len() implies is_noise(#[trigger] w[j]) by {
                assert(w[j] == w.last());
            }
        }
        lemma_shed_more(name, between, after);
    }
}

/// A round of shedding that changes a name costs it a word.
proof fn lemma_a_round_costs_a_word(name: Seq<char>, n: int)
    requires
        n <= vendor_noise().len(),
    ensures
        shed_upto(name, n) == name || text::words(shed_upto(name, n)).len() < text::words(
            name,
        ).len(),
    decreases n,
{
    if n > 0 {
        lemma_a_round_costs_a_word(name, n - 1);
        lemma_shed_upto(name, n - 1);
        lemma_shed(shed_upto(name, n - 1), n - 1);
    }
}

/// A name with at most one word more than there are rounds is shed to the end.
proof fn lemma_rounds_suffice(name: Seq<char>, rounds: nat)
    requires
        text::words(name).len() <= rounds + 1,
    ensures
        shed_upto(shed_all(name, rounds), vendor_noise().len() as int) == shed_all(name, rounds),
    decreases rounds,
{
    let all = vendor_noise().len() as int;
    let after = shed_upto(name, all);
    if rounds == 0 {
        lemma_nothing_to_shed(name, all);
    } else if after != name {
        lemma_a_round_costs_a_word(name, all);
        lemma_rounds_suffice(after, (rounds - 1) as nat);
    }
}

proof fn lemma_shed_all(name: Seq<char>, rounds: nat)
    ensures
        shed_some_words(name, shed_all(name, rounds)),
    decreases rounds,
{
    let after = shed_upto(name, vendor_noise().len() as int);
    lemma_shed_upto(name, vendor_noise().len() as int);
    lemma_shed_upto(name, 0);
    if rounds > 0 && after != name {
        lemma_shed_all(after, (rounds - 1) as nat);
        lemma_shed_more(name, after, shed_all(after, (rounds - 1) as nat));
    }
}

/// Only boilerplate goes: of what stands before the first comma, parentheses
/// apart, tidying keeps the words in order, up to some point from which on every
/// word is boilerplate.
pub proof fn only_boilerplate_is_shed(raw: Seq<char>)
    requires
        registered_head(raw).len() > 0,
    ensures
        only_noise_dropped(text::words(registered_head(raw)), text::words(tidied(raw))),
        text::words(tidied(raw)).len() > 0,
{
    lemma_tidied(raw);
    lemma_shed_all(registered_head(raw), SHED_ROUNDS as nat);
}

/// What shedding leaves of a registered name, before its white space is evened
/// out.
pub open spec fn shed_head(raw: Seq<char>) -> Seq<char> {
    shed_all(registered_head(raw), SHED_ROUNDS as nat)
}

proof fn lemma_tidied(raw: Seq<char>)
    requires
        registered_head(raw).len() > 0,
    ensures
        tidied(raw) == text::join(text::words(shed_head(raw)), " "@),
        text::words(tidied(raw)) == text::words(shed_head(raw)),
        text::words(shed_head(raw)).len() > 0,
        tidied(raw).len() > 0,
        text::tight(tidied(raw)),
{
    let head = registered_head(raw);
    let left = shed_head(raw);
    let open = unparenthesised(raw, raw.len() as int).0;
    text::a_tight_text_stays_as_it_is(open.take(text::next_index(open, ',', 0)));
    lemma_shed_all(head, SHED_ROUNDS as nat);
    assert(!text::is_space(left[left.len() - 1])) by {
        if left == head {
            assert(text::tight(head));
        }
    }
    text::a_text_ends_in_its_last_word(left);
    text::words_hold_no_space(left);
    text::splitting_words_undoes_joining(text::words(left));
    lemma_joined_is_tight(text::words(left));
}

proof fn lemma_joined_is_tight(parts: Seq<Seq<char>>)
    requires
        parts.len() > 0,
        forall|j: int| 0 <= j < parts.len() ==> text::is_word(#[trigger] parts[j]),
    ensures
        text::join(parts, " "@).len() > 0,
        text::tight(text::join(parts, " "@)),
    decreases parts.len(),
{
    let all = text::join(parts, " "@);
    assert(text::is_word(parts[parts.len() - 1]));
    if parts.len() == 1 {
        let word = parts[0];
        assert(!text::is_space(word[0]) && !text::is_space(word[word.len() - 1]));
    } else {
        let before = parts.drop_last();
        let word = parts.last();
        assert forall|j: int| 0 <= j < before.len() implies text::is_word(#[trigger] before[j]) by {
            assert(text::is_word(parts[j]));
        }
        lemma_joined_is_tight(before);
        let first = text::join(before, " "@);
        assert(all[0] == first[0]);
        assert(!text::is_space(word[word.len() - 1]));
        assert(all[all.len() - 1] == word[word.len() - 1]);
    }
}

spec fn avoids(s: Seq<char>) -> bool {
    forall|k: int|
        0 <= k < s.len() ==> (#[trigger] s[k]) != '(' && s[k] != ')' && s[k] != ','
}

proof fn lemma_unparenthesised_avoids(s: Seq<char>, n: int)
    requires
        0 <= n <= s.len(),
    ensures
        forall|k: int|
            0 <= k < unparenthesised(s, n).0.len() ==> (#[trigger] unparenthesised(s, n).0[k])
                != '(' && unparenthesised(s, n).0[k] != ')',
    decreases n,
{
    if n > 0 {
        lemma_unparenthesised_avoids(s, n - 1);
        let before = unparenthesised(s, n - 1).0;
        let after = unparenthesised(s, n).0;
        assert forall|k: int| 0 <= k < after.len() implies (#[trigger] after[k]) != '('
            && after[k] != ')' by {
            if k < before.len() {
                assert(after[k] == before[k]);
            }
        }
    }
}

proof fn lemma_head_avoids(raw: Seq<char>)
    ensures
        avoids(registered_head(raw)),
{
    let open = unparenthesised(raw, raw.len() as int).0;
    let end = text::next_index(open, ',', 0);
    let front = open.take(end);
    let head = registered_head(raw);
    lemma_unparenthesised_avoids(raw, raw.len() as int);
    text::lemma_next_index(open, ',', 0);
    let a = text::past_space(front, 0);
    text::lemma_past_space(front, 0);
    let rest = front.skip(a);
    text::lemma_before_space(rest, rest.len() as int);
    assert forall|k: int| 0 <= k < head.len() implies (#[trigger] head[k]) != '(' && head[k] != ')'
        && head[k] != ',' by {
        assert(head[k] == open[a + k]);
    }
}

proof fn lemma_words_avoid(s: Seq<char>, i: int)
    requires
        0 <= i <= s.len(),
        avoids(s),
    ensures
        forall|j: int|
            0 <= j < text::words_from(s, i).len() ==> avoids(#[trigger] text::words_from(s, i)[j]),
    decreases s.len() - i,
{
    if i < s.len() {
        if text::is_space(s[i]) {
            lemma_words_avoid(s, i + 1);
            assert(text::words_from(s, i) == text::words_from(s, i + 1));
        } else {
            text::lemma_word_end(s, i);
            let end = text::word_end(s, i);
            let first = s.subrange(i, end);
            let all = text::words_from(s, i);
            lemma_words_avoid(s, end);
            assert forall|k: int| 0 <= k < first.len() implies (#[trigger] first[k]) != '('
                && first[k] != ')' && first[k] != ',' by {
                assert(first[k] == s[i + k]);
            }
            assert(all == seq![first] + text::words_from(s, end));
            assert forall|j: int| 0 <= j < all.len() implies avoids(#[trigger] all[j]) by {
                if j == 0 {
                    assert(all[j] == first);
                } else {
                    assert(all[j] == text::words_from(s, end)[j - 1]);
                }
            }
        }
    }
}

proof fn lemma_joined_avoids(parts: Seq<Seq<char>>)
    requires
        forall|j: int| 0 <= j < parts.len() ==> avoids(#[trigger] parts[j]),
    ensures
        avoids(text::join(parts, " "@)),
    decreases parts.len(),
{
    reveal_strlit(" ");
    if parts.len() > 1 {
        let before = parts.drop_last();
        let word = parts.last();
        let first = text::join(before, " "@);
        let all = text::join(parts, " "@);
        assert(avoids(parts[parts.len() - 1]));
        assert forall|j: int| 0 <= j < before.len() implies avoids(#[trigger] before[j]) by {
            assert(avoids(parts[j]));
        }
        lemma_joined_avoids(before);
        assert forall|k: int| 0 <= k < all.len() implies (#[trigger] all[k]) != '(' && all[k] != ')'
            && all[k] != ',' by {
            if k < first.len() {
                assert(all[k] == first[k]);
            } else if k == first.len() {
                assert(all[k] == ' ');
            } else {
                assert(all[k] == word[k - first.len() - 1]);
            }
        }
    } else if parts.len() == 1 {
        assert(avoids(parts[0]));
    }
}

proof fn lemma_unparenthesised_plain(s: Seq<char>, n: int)
    requires
        0 <= n <= s.len(),
        avoids(s),
    ensures
        unparenthesised(s, n) == (s.take(n), 0nat),
    decreases n,
{
    if n > 0 {
        lemma_unparenthesised_plain(s, n - 1);
        assert(s[n - 1] != '(' && s[n - 1] != ')');
        assert(s.take(n) =~= s.take(n - 1).push(s[n - 1]));
    } else {
        assert(s.take(0) =~= Seq::<char>::empty());
    }
}

proof fn lemma_plain_head(s: Seq<char>)
    requires
        avoids(s),
        text::tight(s),
    ensures
        registered_head(s) == s,
{
    lemma_unparenthesised_plain(s, s.len() as int);
    assert(s.take(s.len() as int) =~= s);
    text::lemma_next_index(s, ',', 0);
    text::a_tight_text_stays_as_it_is(s);
}

proof fn lemma_nothing_to_shed(name: Seq<char>, n: int)
    requires
        n <= vendor_noise().len(),
        text::words(name).len() < 2 || !is_noise(text::words(name).last()),
    ensures
        shed_upto(name, n) == name,
    decreases n,
{
    if n > 0 {
        lemma_nothing_to_shed(name, n - 1);
        lemma_shed(name, n - 1);
    }
}

/// Shedding left a piece of boilerplate at the end: there is more than one word,
/// and the last is boilerplate.
pub open spec fn noise_left(name: Seq<char>) -> bool {
    text::words(name).len() >= 2 && is_noise(text::words(name).last())
}

/// Tidying twice changes nothing, as long as the first time left no boilerplate
/// at the end.
pub proof fn tidying_again_changes_nothing(raw: Seq<char>)
    requires
        !noise_left(shed_head(raw)),
    ensures
        tidied(tidied(raw)) == tidied(raw),
{
    if registered_head(raw).len() > 0 {
        let left = shed_head(raw);
        let out = tidied(raw);
        lemma_tidied(raw);
        lemma_head_avoids(raw);
        lemma_shed_all(registered_head(raw), SHED_ROUNDS as nat);
        assert(avoids(left)) by {
            let head = registered_head(raw);
            assert forall|k: int| 0 <= k < left.len() implies (#[trigger] left[k]) != '('
                && left[k] != ')' && left[k] != ',' by {
                assert(left[k] == head[k]);
            }
        }
        lemma_words_avoid(left, 0);
        lemma_joined_avoids(text::words(left));
        lemma_plain_head(out);
        lemma_nothing_to_shed(out, vendor_noise().len() as int);
        assert(shed_head(out) == out);
    } else {
        lemma_blank_head(raw);
        let t = text::trim(raw);
        text::a_tight_text_stays_as_it_is(raw);
        text::a_tight_text_stays_as_it_is(t);
        lemma_empty_head(raw);
        lemma_empty_head(t);
    }
}

proof fn lemma_empty_head(raw: Seq<char>)
    requires
        registered_head(raw).len() == 0,
    ensures
        tidied(raw) == text::trim(raw),
{
    let left = shed_head(raw);
    lemma_shed_all(registered_head(raw), SHED_ROUNDS as nat);
    assert(left.len() == 0);
    assert(text::words(left).len() == 0);
}

proof fn lemma_unparenthesised_part(s: Seq<char>, a: int, part: Seq<char>, n: int)
    requires
        0 <= a <= n <= a + part.len() <= s.len(),
        forall|k: int| 0 <= k < a ==> text::is_space(#[trigger] s[k]),
        forall|k: int| 0 <= k < part.len() ==> #[trigger] part[k] == s[a + k],
    ensures
        unparenthesised(s, n) == (
            s.take(a) + unparenthesised(part, n - a).0,
            unparenthesised(part, n - a).1,
        ),
    decreases n,
{
    if n == a {
        lemma_unparenthesised_spaces(s, a);
        assert(s.take(a) + Seq::<char>::empty() =~= s.take(a));
    } else {
        lemma_unparenthesised_part(s, a, part, n - 1);
        assert(part[n - 1 - a] == s[n - 1]);
        let before = unparenthesised(part, n - 1 - a).0;
        assert(s.take(a) + before.push(s[n - 1]) =~= (s.take(a) + before).push(s[n - 1]));
    }
}

proof fn lemma_unparenthesised_spaces(s: Seq<char>, n: int)
    requires
        0 <= n <= s.len(),
        forall|k: int| 0 <= k < n ==> text::is_space(#[trigger] s[k]),
    ensures
        unparenthesised(s, n) == (s.take(n), 0nat),
    decreases n,
{
    if n > 0 {
        lemma_unparenthesised_spaces(s, n - 1);
        assert(text::is_space(s[n - 1]));
        assert(s.take(n) =~= s.take(n - 1).push(s[n - 1]));
    } else {
        assert(s.take(0) =~= Seq::<char>::empty());
    }
}

proof fn lemma_unparenthesised_grows(s: Seq<char>, m: int, n: int)
    requires
        0 <= m <= n <= s.len(),
    ensures
        unparenthesised(s, m).0.len() <= unparenthesised(s, n).0.len(),
        unparenthesised(s, m).0 == unparenthesised(s, n).0.take(
            unparenthesised(s, m).0.len() as int,
        ),
    decreases n - m,
{
    let short = unparenthesised(s, m).0;
    if m < n {
        lemma_unparenthesised_grows(s, m, n - 1);
        let before = unparenthesised(s, n - 1).0;
        let after = unparenthesised(s, n).0;
        assert(after.take(short.len() as int) =~= before.take(short.len() as int));
    } else {
        assert(short =~= short.take(short.len() as int));
    }
}

/// A name with nothing before its first comma, parentheses apart, has nothing
/// there once it is trimmed either.
proof fn lemma_blank_head(raw: Seq<char>)
    requires
        registered_head(raw).len() == 0,
    ensures
        registered_head(text::trim(raw)).len() == 0,
{
    let t = text::trim(raw);
    let a = text::past_space(raw, 0);
    let rest = raw.skip(a);
    text::lemma_past_space(raw, 0);
    text::lemma_before_space(rest, rest.len() as int);
    let end = a + t.len();
    let open = unparenthesised(raw, raw.len() as int).0;
    let inner = unparenthesised(t, t.len() as int).0;
    assert forall|k: int| 0 <= k < t.len() implies #[trigger] t[k] == raw[a + k] by {
        assert(rest[k] == raw[a + k]);
    }
    lemma_unparenthesised_part(raw, a, t, end);
    lemma_unparenthesised_grows(raw, end, raw.len() as int);
    let cut = text::next_index(open, ',', 0);
    let inner_cut = text::next_index(inner, ',', 0);
    text::lemma_next_index(open, ',', 0);
    text::lemma_next_index(inner, ',', 0);
    text::only_blank_texts_trim_to_nothing(open.take(cut));
    text::only_blank_texts_trim_to_nothing(inner.take(inner_cut));
    let front = raw.take(a) + inner;
    assert(front == open.take(front.len() as int));
    assert forall|k: int| 0 <= k < inner.take(inner_cut).len() implies text::is_space(
        #[trigger] inner.take(inner_cut)[k],
    ) by {
        assert(inner[k] == front[a + k]);
        assert(front[a + k] == open[a + k]);
        if cut <= a + k {
            assert(open[cut] == ',');
            assert(front[cut] == open[cut]);
            if cut < a {
                assert(front[cut] == raw[cut]);
                assert(text::is_space(raw[cut]));
            } else {
                assert(front[cut] == inner[cut - a]);
            }
        }
        assert(open.take(cut)[a + k] == open[a + k]);
    }
}

proof fn lemma_settled(name: Seq<char>, i: int, n: int)
    requires
        0 <= i < n <= vendor_noise().len(),
        shed_upto(name, n) == name,
    ensures
        shed(name, vendor_noise()[i]) == name,
    decreases n,
{
    let before = shed_upto(name, n - 1);
    lemma_shed_upto(name, n - 1);
    lemma_shed(before, n - 1);
    assert(before.len() == name.len());
    assert(before =~= name);
    if i < n - 1 {
        lemma_settled(name, i, n - 1);
    }
}

/// Shedding leaves no boilerplate at the end of a name with plain spaces in it,
/// once a further round would change nothing.
pub proof fn boilerplate_is_shed_to_the_end(raw: Seq<char>)
    requires
        forall|k: int|
            0 <= k < registered_head(raw).len() && text::is_space(
                #[trigger] registered_head(raw)[k],
            ) ==> registered_head(raw)[k] == ' ',
        shed_upto(shed_head(raw), vendor_noise().len() as int) == shed_head(raw),
    ensures
        !noise_left(shed_head(raw)),
{
    let head = registered_head(raw);
    let left = shed_head(raw);
    lemma_shed_all(head, SHED_ROUNDS as nat);
    if noise_left(left) {
        let open = unparenthesised(raw, raw.len() as int).0;
        text::a_tight_text_stays_as_it_is(open.take(text::next_index(open, ',', 0)));
        if left.len() == 0 {
            assert(text::words(left).len() == 0);
        }
        assert(!text::is_space(left[left.len() - 1])) by {
            if left == head {
                assert(text::tight(head));
            }
        }
        text::a_text_ends_in_its_last_word(left);
        let word = text::words(left).last();
        let p = left.len() - word.len();
        let front = left.take(p - 1);
        assert(left[p - 1] == head[p - 1]);
        assert(left[p - 1] == ' ');
        let i = choose|i: int|
            0 <= i < vendor_noise().len() && text::same_ignoring_case(
                seq![' '] + word,
                #[trigger] vendor_noise()[i],
            );
        let noise = vendor_noise()[i];
        assert(text::ascii_lowered(seq![' '] + word).len() == word.len() + 1);
        assert(text::ascii_lowered(noise).len() == noise.len());
        assert(left.skip(p - 1) =~= seq![' '] + word);
        assert(before_suffix(left, noise) == Some(front));
        text::space_at_the_end_is_no_word(front);
        assert(text::words(front).len() > 0);
        assert(text::trim_end(front).len() > 0) by {
            if text::trim_end(front).len() == 0 {
                assert(text::words(text::trim_end(front)).len() == 0);
            }
        }
        text::lemma_before_space(front, front.len() as int);
        lemma_settled(left, i, vendor_noise().len() as int);
        assert(text::trim_end(front).len() < left.len());
    }
}

/// Tidying a name of up to nine words with plain spaces between them goes to the
/// end: tidying it twice changes nothing, and where anything stands before its
/// first comma, parentheses apart, no boilerplate is left at the end.
pub proof fn tidying_twice_changes_nothing(raw: Seq<char>)
    requires
        text::words(registered_head(raw)).len() <= SHED_ROUNDS + 1,
        forall|k: int|
            0 <= k < registered_head(raw).len() && text::is_space(
                #[trigger] registered_head(raw)[k],
            ) ==> registered_head(raw)[k] == ' ',
    ensures
        tidied(tidied(raw)) == tidied(raw),
        registered_head(raw).len() > 0 ==> !noise_left(tidied(raw)),
{
    lemma_rounds_suffice(registered_head(raw), SHED_ROUNDS as nat);
    boilerplate_is_shed_to_the_end(raw);
    tidying_again_changes_nothing(raw);
    if registered_head(raw).len() > 0 {
        lemma_tidied(raw);
    }
}

proof fn lemma_joined_of_plain_words(parts: Seq<Seq<char>>)
    requires
        forall|j: int| 0 <= j < parts.len() ==> text::is_word(#[trigger] parts[j]),
    ensures
        forall|k: int|
            0 <= k < text::join(parts, " "@).len() && text::is_space(
                #[trigger] text::join(parts, " "@)[k],
            ) ==> text::join(parts, " "@)[k] == ' ',
    decreases parts.len(),
{
    reveal_strlit(" ");
    if parts.len() > 1 {
        let before = parts.drop_last();
        let word = parts.last();
        let first = text::join(before, " "@);
        let all = text::join(parts, " "@);
        assert(text::is_word(parts[parts.len() - 1]));
        assert forall|j: int| 0 <= j < before.len() implies text::is_word(#[trigger] before[j]) by {
            assert(text::is_word(parts[j]));
        }
        lemma_joined_of_plain_words(before);
        assert forall|k: int|
            0 <= k < all.len() && text::is_space(#[trigger] all[k]) implies all[k] == ' ' by {
            if k < first.len() {
                assert(all[k] == first[k]);
            } else if k == first.len() {
                assert(all[k] == ' ');
            } else {
                assert(all[k] == word[k - first.len() - 1]);
            }
        }
    } else if parts.len() == 1 {
        assert(text::is_word(parts[0]));
    }
}

proof fn lemma_head_before_a_comma(head: Seq<char>, rest: Seq<char>)
    requires
        avoids(head),
        text::tight(head),
    ensures
        registered_head(head + seq![','] + rest) == head,
{
    let raw = head + seq![','] + rest;
    let n = head.len() as int;
    let open = unparenthesised(raw, raw.len() as int).0;
    lemma_unparenthesised_start(raw, head, n);
    lemma_unparenthesised_grows(raw, n + 1, raw.len() as int);
    assert(head.take(n) =~= head);
    assert(unparenthesised(raw, n + 1).0 == head.push(','));
    assert forall|k: int| 0 <= k < n implies open[k] == head[k] && open[k] != ',' by {
        assert(head.push(',')[k] == open.take(n + 1)[k]);
    }
    assert(open[n] == open.take(n + 1)[n]);
    text::lemma_next_index(open, ',', 0);
    let found = text::next_index(open, ',', 0);
    assert(found == n) by {
        if found < n {
            assert(open[found] != ',');
        }
    }
    assert(open.take(n) =~= head);
    text::a_tight_text_stays_as_it_is(head);
}

proof fn lemma_unparenthesised_start(raw: Seq<char>, head: Seq<char>, n: int)
    requires
        0 <= n <= head.len() <= raw.len(),
        forall|k: int| 0 <= k < head.len() ==> raw[k] == #[trigger] head[k],
        avoids(head),
    ensures
        unparenthesised(raw, n) == (head.take(n), 0nat),
    decreases n,
{
    if n > 0 {
        lemma_unparenthesised_start(raw, head, n - 1);
        assert(raw[n - 1] == head[n - 1]);
        assert(head.take(n) =~= head.take(n - 1).push(head[n - 1]));
    } else {
        assert(head.take(0) =~= Seq::<char>::empty());
    }
}

/// What tidying makes of up to nine words with single spaces between them, with
/// or without a comma and more behind them: the first of the words, at least
/// one, of which the last is no boilerplate unless it is the only one. Every
/// word that goes is boilerplate, and tidying again changes nothing.
pub proof fn a_plain_name_keeps_its_first_words(parts: Seq<Seq<char>>, rest: Seq<char>)
    requires
        1 <= parts.len() <= SHED_ROUNDS + 1,
        forall|j: int| 0 <= j < parts.len() ==> text::is_word(#[trigger] parts[j]),
        forall|j: int|
            0 <= j < parts.len() ==> !(#[trigger] parts[j]).contains('(') && !parts[j].contains(
                ')',
            ) && !parts[j].contains(','),
    ensures
        ({
            let head = text::join(parts, " "@);
            first_words_kept(parts, tidied(head)) && first_words_kept(
                parts,
                tidied(head + seq![','] + rest),
            )
        }),
{
    let head = text::join(parts, " "@);
    assert forall|j: int| 0 <= j < parts.len() implies avoids(#[trigger] parts[j]) by {
        let part = parts[j];
        assert forall|k: int| 0 <= k < part.len() implies (#[trigger] part[k]) != '(' && part[k]
            != ')' && part[k] != ',' by {
            assert(part.contains(part[k]));
        }
    }
    lemma_joined_avoids(parts);
    lemma_joined_is_tight(parts);
    lemma_joined_of_plain_words(parts);
    text::splitting_words_undoes_joining(parts);
    lemma_plain_head(head);
    lemma_head_before_a_comma(head, rest);
    lemma_first_words_kept(parts, head);
    lemma_first_words_kept(parts, head + seq![','] + rest);
}

/// The result of tidying is the first of these words, as far as they are no
/// boilerplate at the end.
pub open spec fn first_words_kept(parts: Seq<Seq<char>>, out: Seq<char>) -> bool {
    let k = text::words(out).len() as int;
    &&& 1 <= k <= parts.len()
    &&& out == text::join(parts.take(k), " "@)
    &&& k >= 2 ==> !is_noise(parts[k - 1])
    &&& forall|j: int| k <= j < parts.len() ==> is_noise(#[trigger] parts[j])
    &&& tidied(out) == out
}

proof fn lemma_first_words_kept(parts: Seq<Seq<char>>, raw: Seq<char>)
    requires
        1 <= parts.len() <= SHED_ROUNDS + 1,
        registered_head(raw) == text::join(parts, " "@),
        registered_head(raw).len() > 0,
        text::words(text::join(parts, " "@)) == parts,
        forall|k: int|
            0 <= k < registered_head(raw).len() && text::is_space(
                #[trigger] registered_head(raw)[k],
            ) ==> registered_head(raw)[k] == ' ',
    ensures
        first_words_kept(parts, tidied(raw)),
{
    tidying_twice_changes_nothing(raw);
    only_boilerplate_is_shed(raw);
    lemma_tidied(raw);
    let w = text::words(tidied(raw));
    assert(w == parts.take(w.len() as int));
}

/// A tidied name is empty only where the registered name is blank.
pub proof fn a_tidied_name_is_empty_only_for_a_blank_one(raw: Seq<char>)
    requires
        text::trim(raw).len() > 0,
    ensures
        tidied(raw).len() > 0,
{
}

/// What has just been learned is believed: until its term is over, asking again
/// gives the same answer.
pub proof fn an_answer_is_believed_for_its_term(
    cache: Map<Seq<char>, (Option<String>, i64)>,
    key: Seq<char>,
    answer: Option<String>,
    now: i64,
    later: i64,
    ttl: i64,
)
    requires
        later - now < ttl,
    ensures
        fresh(cache.insert(key, (answer, now)), key, later, ttl) == Some(spelled_or(answer)),
{
}

/// A neighbour is never attributed to an operator on the internet.
pub proof fn a_neighbour_is_described_by_its_mac_alone(
    mac: Option<Seq<char>>,
    isp: Option<Seq<char>>,
    other: Option<Seq<char>>,
)
    ensures
        source_of(true, mac, isp) == source_of(true, mac, other),
{
}

/// The words that say what a company is rather than who, in any ASCII case.
pub open spec fn noise_words() -> Seq<Seq<char>> {
    seq![
        "Inc."@,
        "Inc"@,
        "Corp."@,
        "Corp"@,
        "Corporation"@,
        "Corporate"@,
        "Company"@,
        "Co."@,
        "Co"@,
        "Ltd."@,
        "Ltd"@,
        "Limited"@,
        "LLC"@,
        "L.L.C."@,
        "GmbH"@,
        "AG"@,
        "B.V."@,
        "N.V."@,
        "S.A."@,
        "PLC"@,
        "Pte"@,
        "Pty"@,
        "Technologies"@,
        "Technology"@,
        "Electronics"@,
        "Electronic"@,
        "Systems"@,
        "Networks"@,
        "Solutions"@,
        "Communications"@,
    ]
}

proof fn lemma_noise_words_first()
    ensures
        " Inc."@ == seq![' '] + "Inc."@,
        " Inc"@ == seq![' '] + "Inc"@,
        " Corp."@ == seq![' '] + "Corp."@,
        " Corp"@ == seq![' '] + "Corp"@,
        " Corporation"@ == seq![' '] + "Corporation"@,
        " Corporate"@ == seq![' '] + "Corporate"@,
        " Company"@ == seq![' '] + "Company"@,
        " Co."@ == seq![' '] + "Co."@,
        " Co"@ == seq![' '] + "Co"@,
        " Ltd."@ == seq![' '] + "Ltd."@,
{
    reveal_strlit(" Inc.");
    reveal_strlit("Inc.");
    reveal_strlit(" Inc");
    reveal_strlit("Inc");
    reveal_strlit(" Corp.");
    reveal_strlit("Corp.");
    reveal_strlit(" Corp");
    reveal_strlit("Corp");
    reveal_strlit(" Corporation");
    reveal_strlit("Corporation");
    reveal_strlit(" Corporate");
    reveal_strlit("Corporate");
    reveal_strlit(" Company");
    reveal_strlit("Company");
    reveal_strlit(" Co.");
    reveal_strlit("Co.");
    reveal_strlit(" Co");
    reveal_strlit("Co");
    reveal_strlit(" Ltd.");
    reveal_strlit("Ltd.");
    assert(" Inc."@ =~= seq![' '] + "Inc."@);
    assert(" Inc"@ =~= seq![' '] + "Inc"@);
    assert(" Corp."@ =~= seq![' '] + "Corp."@);
    assert(" Corp"@ =~= seq![' '] + "Corp"@);
    assert(" Corporation"@ =~= seq![' '] + "Corporation"@);
    assert(" Corporate"@ =~= seq![' '] + "Corporate"@);
    assert(" Company"@ =~= seq![' '] + "Company"@);
    assert(" Co."@ =~= seq![' '] + "Co."@);
    assert(" Co"@ =~= seq![' '] + "Co"@);
    assert(" Ltd."@ =~= seq![' '] + "Ltd."@);
}

proof fn lemma_noise_words_second()
    ensures
        " Ltd"@ == seq![' '] + "Ltd"@,
        " Limited"@ == seq![' '] + "Limited"@,
        " LLC"@ == seq![' '] + "LLC"@,
        " L.L.C."@ == seq![' '] + "L.L.C."@,
        " GmbH"@ == seq![' '] + "GmbH"@,
        " AG"@ == seq![' '] + "AG"@,
        " B.V."@ == seq![' '] + "B.V."@,
        " N.V."@ == seq![' '] + "N.V."@,
        " S.A."@ == seq![' '] + "S.A."@,
        " PLC"@ == seq![' '] + "PLC"@,
{
    reveal_strlit(" Ltd");
    reveal_strlit("Ltd");
    reveal_strlit(" Limited");
    reveal_strlit("Limited");
    reveal_strlit(" LLC");
    reveal_strlit("LLC");
    reveal_strlit(" L.L.C.");
    reveal_strlit("L.L.C.");
    reveal_strlit(" GmbH");
    reveal_strlit("GmbH");
    reveal_strlit(" AG");
    reveal_strlit("AG");
    reveal_strlit(" B.V.");
    reveal_strlit("B.V.");
    reveal_strlit(" N.V.");
    reveal_strlit("N.V.");
    reveal_strlit(" S.A.");
    reveal_strlit("S.A.");
    reveal_strlit(" PLC");
    reveal_strlit("PLC");
    assert(" Ltd"@ =~= seq![' '] + "Ltd"@);
    assert(" Limited"@ =~= seq![' '] + "Limited"@);
    assert(" LLC"@ =~= seq![' '] + "LLC"@);
    assert(" L.L.C."@ =~= seq![' '] + "L.L.C."@);
    assert(" GmbH"@ =~= seq![' '] + "GmbH"@);
    assert(" AG"@ =~= seq![' '] + "AG"@);
    assert(" B.V."@ =~= seq![' '] + "B.V."@);
    assert(" N.V."@ =~= seq![' '] + "N.V."@);
    assert(" S.A."@ =~= seq![' '] + "S.A."@);
    assert(" PLC"@ =~= seq![' '] + "PLC"@);
}

proof fn lemma_noise_words_third()
    ensures
        " Pte"@ == seq![' '] + "Pte"@,
        " Pty"@ == seq![' '] + "Pty"@,
        " Technologies"@ == seq![' '] + "Technologies"@,
        " Technology"@ == seq![' '] + "Technology"@,
        " Electronics"@ == seq![' '] + "Electronics"@,
        " Electronic"@ == seq![' '] + "Electronic"@,
        " Systems"@ == seq![' '] + "Systems"@,
        " Networks"@ == seq![' '] + "Networks"@,
        " Solutions"@ == seq![' '] + "Solutions"@,
        " Communications"@ == seq![' '] + "Communications"@,
{
    reveal_strlit(" Pte");
    reveal_strlit("Pte");
    reveal_strlit(" Pty");
    reveal_strlit("Pty");
    reveal_strlit(" Technologies");
    reveal_strlit("Technologies");
    reveal_strlit(" Technology");
    reveal_strlit("Technology");
    reveal_strlit(" Electronics");
    reveal_strlit("Electronics");
    reveal_strlit(" Electronic");
    reveal_strlit("Electronic");
    reveal_strlit(" Systems");
    reveal_strlit("Systems");
    reveal_strlit(" Networks");
    reveal_strlit("Networks");
    reveal_strlit(" Solutions");
    reveal_strlit("Solutions");
    reveal_strlit(" Communications");
    reveal_strlit("Communications");
    assert(" Pte"@ =~= seq![' '] + "Pte"@);
    assert(" Pty"@ =~= seq![' '] + "Pty"@);
    assert(" Technologies"@ =~= seq![' '] + "Technologies"@);
    assert(" Technology"@ =~= seq![' '] + "Technology"@);
    assert(" Electronics"@ =~= seq![' '] + "Electronics"@);
    assert(" Electronic"@ =~= seq![' '] + "Electronic"@);
    assert(" Systems"@ =~= seq![' '] + "Systems"@);
    assert(" Networks"@ =~= seq![' '] + "Networks"@);
    assert(" Solutions"@ =~= seq![' '] + "Solutions"@);
    assert(" Communications"@ =~= seq![' '] + "Communications"@);
}

proof fn lemma_noise_behind_a_space(word: Seq<char>, noise: Seq<char>)
    ensures
        text::same_ignoring_case(seq![' '] + word, seq![' '] + noise) <==> text::same_ignoring_case(
            word,
            noise,
        ),
{
    let a = seq![' '] + word;
    let b = seq![' '] + noise;
    text::case_is_ignored_letter_by_letter(a, b);
    text::case_is_ignored_letter_by_letter(word, noise);
    if text::same_ignoring_case(a, b) {
        assert forall|i: int| 0 <= i < word.len() implies text::same_letter(
            #[trigger] word[i],
            noise[i],
        ) by {
            assert(text::same_letter(a[i + 1], b[i + 1]));
        }
    }
    if text::same_ignoring_case(word, noise) {
        assert forall|i: int| 0 <= i < a.len() implies text::same_letter(#[trigger] a[i], b[i]) by {
            if i > 0 {
                assert(a[i] == word[i - 1]);
                assert(b[i] == noise[i - 1]);
                assert(text::same_letter(word[i - 1], noise[i - 1]));
            }
        }
    }
}

/// A word is boilerplate exactly where it is one of these, in any ASCII case.
pub proof fn boilerplate_is_one_of_these_words(word: Seq<char>)
    ensures
        is_noise(word) <==> exists|i: int|
            0 <= i < noise_words().len() && text::same_ignoring_case(
                word,
                #[trigger] noise_words()[i],
            ),
        noise_words().len() == 30,
{
    lemma_noise_words_first();
    lemma_noise_words_second();
    lemma_noise_words_third();
    assert(vendor_noise().len() == noise_words().len());
    assert forall|i: int| 0 <= i < noise_words().len() implies #[trigger] vendor_noise()[i] == seq![
        ' ',
    ] + noise_words()[i] by {}
    if is_noise(word) {
        let i = choose|i: int|
            0 <= i < vendor_noise().len() && text::same_ignoring_case(
                seq![' '] + word,
                #[trigger] vendor_noise()[i],
            );
        lemma_noise_behind_a_space(word, noise_words()[i]);
        assert(text::same_ignoring_case(word, noise_words()[i]));
    }
    if exists|i: int|
        0 <= i < noise_words().len() && text::same_ignoring_case(
            word,
            #[trigger] noise_words()[i],
        ) {
        let i = choose|i: int|
            0 <= i < noise_words().len() && text::same_ignoring_case(
                word,
                #[trigger] noise_words()[i],
            );
        lemma_noise_behind_a_space(word, noise_words()[i]);
        assert(text::same_ignoring_case(seq![' '] + word, vendor_noise()[i]));
    }
}

/// What stands in parentheses is left out, and all else stays.
pub proof fn what_stands_in_parentheses_is_left_out(a: Seq<char>, b: Seq<char>, c: Seq<char>)
    requires
        !a.contains('(') && !a.contains(')'),
        !b.contains('(') && !b.contains(')'),
        !c.contains('(') && !c.contains(')'),
    ensures
        unparenthesised(a, a.len() as int) == (a, 0nat),
        ({
            let all = a + seq!['('] + b + seq![')'] + c;
            unparenthesised(all, all.len() as int) == (a + c, 0nat)
        }),
{
    let all = a + seq!['('] + b + seq![')'] + c;
    lemma_outside(a, a, a.len() as int);
    lemma_outside(all, a, a.len() as int);
    let open = a.len() as int;
    assert(all[open] == '(');
    assert(unparenthesised(all, open + 1) == (a, 1nat));
    lemma_inside(all, open + 1, open + 1 + b.len(), b);
    let close = open + 1 + b.len();
    assert(all[close] == ')');
    assert(unparenthesised(all, close + 1) == (a, 0nat));
    lemma_behind(all, close + 1, a, c, c.len() as int);
    assert(c.take(c.len() as int) =~= c);
}

proof fn lemma_outside(s: Seq<char>, a: Seq<char>, n: int)
    requires
        0 <= n <= a.len() <= s.len(),
        forall|k: int| 0 <= k < a.len() ==> s[k] == a[k],
        !a.contains('(') && !a.contains(')'),
    ensures
        unparenthesised(s, n) == (a.take(n), 0nat),
        n == a.len() ==> unparenthesised(s, n) == (a, 0nat),
    decreases n,
{
    if n > 0 {
        lemma_outside(s, a, n - 1);
        assert(a.contains(a[n - 1]));
        assert(a.take(n) =~= a.take(n - 1).push(a[n - 1]));
    } else {
        assert(a.take(0) =~= Seq::<char>::empty());
    }
    if n == a.len() {
        assert(a.take(n) =~= a);
    }
}

proof fn lemma_inside(s: Seq<char>, from: int, to: int, b: Seq<char>)
    requires
        0 < from <= to <= s.len(),
        to - from <= b.len(),
        forall|k: int| from <= k < to ==> s[k] == b[k - from],
        !b.contains('(') && !b.contains(')'),
        unparenthesised(s, from).1 > 0,
    ensures
        unparenthesised(s, to) == unparenthesised(s, from),
    decreases to - from,
{
    if from < to {
        lemma_inside(s, from, to - 1, b);
        assert(s[to - 1] == b[to - 1 - from]);
        assert(b.contains(b[to - 1 - from]));
    }
}

proof fn lemma_behind(s: Seq<char>, from: int, out: Seq<char>, c: Seq<char>, n: int)
    requires
        0 <= n <= c.len(),
        0 < from,
        from + c.len() <= s.len(),
        forall|k: int| 0 <= k < c.len() ==> s[from + k] == #[trigger] c[k],
        !c.contains('(') && !c.contains(')'),
        unparenthesised(s, from) == (out, 0nat),
    ensures
        unparenthesised(s, from + n) == (out + c.take(n), 0nat),
    decreases n,
{
    if n > 0 {
        lemma_behind(s, from, out, c, n - 1);
        assert(s[from + (n - 1)] == c[n - 1]);
        assert(c.contains(c[n - 1]));
        assert(out + c.take(n) =~= (out + c.take(n - 1)).push(c[n - 1]));
    } else {
        assert(out + c.take(0) =~= out);
    }
}

/// A character takes one to four bytes of UTF-8, and a text what its characters
/// take.
pub proof fn a_text_is_as_long_as_its_characters(a: Seq<char>, c: char)
    ensures
        utf8_len(a.push(c)) == utf8_len(a) + utf8_width(c),
        utf8_len(Seq::empty()) == 0,
        c <= '\u{7f}' ==> utf8_width(c) == 1,
        '\u{80}' <= c <= '\u{7ff}' ==> utf8_width(c) == 2,
        '\u{800}' <= c <= '\u{ffff}' ==> utf8_width(c) == 3,
        c >= '\u{10000}' ==> utf8_width(c) == 4,
{
    assert(a.push(c).drop_last() =~= a);
}

/// The short name of a host is what stands before the first dot of the full one.
pub proof fn a_short_name_ends_at_the_first_dot(host: Seq<char>, domain: Seq<char>)
    requires
        !host.contains('.'),
    ensures
        host.len() > 0 ==> short_name(Some(host + seq!['.'] + domain)) == Some(host) && short_name(
            Some(host),
        ) == Some(host),
        host.len() == 0 ==> short_name(Some(host + seq!['.'] + domain)) is None,
        short_name(None) is None,
{
    let all = host + seq!['.'] + domain;
    assert forall|k: int| 0 <= k < host.len() implies all[k] != '.' && host[k] != '.' by {
        assert(all[k] == host[k]);
        assert(host.contains(host[k]));
    }
    assert(all[host.len() as int] == '.');
    text::lemma_next_index_is(all, '.', 0, host.len() as int);
    text::lemma_next_index_is(host, '.', 0, host.len() as int);
    assert(all.take(host.len() as int) =~= host);
    assert(host.take(host.len() as int) =~= host);
}

/// A device is called by the name chosen for it; else by its full hostname, unless
/// that is a serial number; else by its vendor; else by the serial number; and
/// with none of these by its address alone. Behind a name stands the address.
pub proof fn a_device_is_called_by_the_best_name_known(
    ip: Seq<char>,
    chosen: Option<Seq<char>>,
    host: Seq<char>,
    domain: Seq<char>,
    vendor: Option<Seq<char>>,
)
    requires
        host.len() > 0,
        !host.contains('.'),
    ensures
        ({
            let full = host + seq!['.'] + domain;
            let address = seq![' ', '('] + ip + seq![')'];
            &&& chosen is Some ==> label_of(ip, chosen, Some(full), vendor) == chosen.unwrap()
                + address && label_of(ip, chosen, None, vendor) == chosen.unwrap() + address
            &&& chosen is None && !machine_generated(host) ==> label_of(
                ip,
                chosen,
                Some(full),
                vendor,
            ) == full + address
            &&& chosen is None && machine_generated(host) && vendor is Some ==> label_of(
                ip,
                chosen,
                Some(full),
                vendor,
            ) == vendor.unwrap() + address
            &&& chosen is None && machine_generated(host) && vendor is None ==> label_of(
                ip,
                chosen,
                Some(full),
                vendor,
            ) == host + address
            &&& chosen is None && vendor is Some ==> label_of(ip, chosen, None, vendor)
                == vendor.unwrap() + address
            &&& chosen is None && vendor is None ==> label_of(ip, chosen, None, vendor) == ip
        }),
{
    a_short_name_ends_at_the_first_dot(host, domain);
    reveal_strlit(" (");
    reveal_strlit(")");
    assert(" ("@ =~= seq![' ', '('] && ")"@ =~= seq![')']);
    let full = host + seq!['.'] + domain;
    let address = seq![' ', '('] + ip + seq![')'];
    assert(named(full, ip) =~= full + address);
    assert(named(host, ip) =~= host + address);
    if chosen is Some {
        assert(named(chosen.unwrap(), ip) =~= chosen.unwrap() + address);
    }
    if vendor is Some {
        assert(named(vendor.unwrap(), ip) =~= vendor.unwrap() + address);
    }
}

/// A label is a serial number exactly where it takes eight bytes or more, holds a
/// digit, and holds no small letter.
pub proof fn a_serial_number_is_long_and_without_small_letters(label: Seq<char>, at: int)
    requires
        0 <= at < label.len(),
        '0' <= label[at] <= '9',
    ensures
        machine_generated(label) <==> utf8_len(label) >= 8 && !(exists|i: int|
            0 <= i < label.len() && 'a' <= #[trigger] label[i] <= 'z'),
{
    assert(text::is_digit(label[at]));
}

/// A label without a digit is no serial number.
pub proof fn a_label_without_a_digit_is_no_serial_number(label: Seq<char>)
    requires
        forall|i: int| 0 <= i < label.len() ==> !('0' <= #[trigger] label[i] <= '9'),
    ensures
        !machine_generated(label),
{
}

/// A sender is named by its hostname with the address behind it, and by the
/// address where it has none.
pub proof fn a_sender_is_named_by_hostname_or_address(ip: Seq<char>, name: Seq<char>)
    ensures
        primary_of(ip, Some(name)) == name + seq![' ', '('] + ip + seq![')'],
        primary_of(ip, None) == ip,
{
    reveal_strlit(" (");
    reveal_strlit(")");
    assert(" ("@ =~= seq![' ', '('] && ")"@ =~= seq![')']);
}

/// What else is known of a sender is the chosen name and the vendor, with a dot
/// between them; the vendor is left out where the short hostname says it already,
/// in any case.
pub proof fn a_vendor_is_left_out_where_the_hostname_says_it(
    host: Seq<char>,
    chosen: Seq<char>,
    vendor: Seq<char>,
)
    requires
        host.len() > 0,
        !host.contains('.'),
    ensures
        ({
            let said = text::contains_text(text::lowercased(host), text::lowercased(vendor));
            &&& derived_of(Some(host), Some(chosen), Some(vendor)) == Some(
                if said {
                    chosen
                } else {
                    chosen + " · "@ + vendor
                },
            )
            &&& said ==> derived_of(Some(host), None, Some(vendor)) is None
            &&& !said ==> derived_of(Some(host), None, Some(vendor)) == Some(vendor)
        }),
        derived_of(None, Some(chosen), Some(vendor)) == Some(chosen + " · "@ + vendor),
        derived_of(None, None, Some(vendor)) == Some(vendor),
        derived_of(Some(host), Some(chosen), None) == Some(chosen),
        derived_of(None, Some(chosen), None) == Some(chosen),
        derived_of(Some(host), None, None) is None,
        derived_of(None, None, None) is None,
{
    a_short_name_ends_at_the_first_dot(host, Seq::empty());
}

/// A sender is placed on the LAN by its hardware address where it is near, and on
/// the internet by its provider where it is not.
pub proof fn a_sender_is_placed_by_what_is_known_of_it(mac: Seq<char>, isp: Seq<char>)
    ensures
        source_of(true, Some(mac), Some(isp)) == "LAN, "@ + mac,
        source_of(true, None, Some(isp)) == "LAN"@,
        source_of(false, Some(mac), Some(isp)) == "internet, "@ + isp,
        source_of(false, Some(mac), None) == "internet"@,
{
}

/// A reverse lookup answers with its second word, unless that repeats what was
/// asked.
pub proof fn a_reverse_lookup_answers_with_its_second_word(
    query: Seq<char>,
    parts: Seq<Seq<char>>,
)
    requires
        forall|i: int| 0 <= i < parts.len() ==> text::is_word(#[trigger] parts[i]),
    ensures
        ({
            let answer = resolved(query, text::join(parts, " "@));
            &&& parts.len() >= 2 && parts[1] != query ==> answer == Some(parts[1])
            &&& parts.len() < 2 || parts[1] == query ==> answer is None
        }),
{
    text::splitting_words_undoes_joining(parts);
}

proof fn lemma_lladdr(words: Seq<Seq<char>>, i: int, at: int)
    requires
        0 <= i <= at <= words.len(),
        forall|k: int| i <= k < at ==> #[trigger] words[k] != "lladdr"@,
    ensures
        lladdr_from(words, i) == lladdr_from(words, at),
    decreases at - i,
{
    if i < at {
        assert(words[i] != "lladdr"@);
        lemma_lladdr(words, i + 1, at);
    }
}

/// A hardware address is the word behind the first `lladdr`.
pub proof fn a_hardware_address_stands_behind_lladdr(words: Seq<Seq<char>>, at: int)
    requires
        0 <= at <= words.len(),
        forall|k: int| 0 <= k < at ==> #[trigger] words[k] != seq!['l', 'l', 'a', 'd', 'd', 'r'],
        at < words.len() ==> words[at] == seq!['l', 'l', 'a', 'd', 'd', 'r'],
    ensures
        at + 1 < words.len() ==> lladdr_from(words, 0) == Some(words[at + 1]),
        at + 1 >= words.len() ==> lladdr_from(words, 0) is None,
{
    reveal_strlit("lladdr");
    assert("lladdr"@ =~= seq!['l', 'l', 'a', 'd', 'd', 'r']);
    lemma_lladdr(words, 0, at);
}

proof fn lemma_behind_first(lines: Seq<Seq<char>>, prefix: Seq<char>, i: int, at: int)
    requires
        0 <= i <= at <= lines.len(),
        forall|k: int| i <= k < at ==> !text::begins(#[trigger] lines[k], prefix),
    ensures
        behind_from(lines, prefix, i) == behind_from(lines, prefix, at),
    decreases at - i,
{
    if i < at {
        assert(!text::begins(lines[i], prefix));
        lemma_behind_first(lines, prefix, i + 1, at);
    }
}

/// A registered owner is what the first line with the prefix says behind it,
/// without the white space round it.
pub proof fn the_first_line_with_the_prefix_says_the_owner(
    lines: Seq<Seq<char>>,
    prefix: Seq<char>,
    rest: Seq<char>,
    at: int,
)
    requires
        0 <= at <= lines.len(),
        forall|k: int| 0 <= k < at ==> !text::begins(#[trigger] lines[k], prefix),
        at < lines.len() ==> lines[at] == prefix + rest,
    ensures
        at == lines.len() ==> behind_from(lines, prefix, 0) is None,
        at < lines.len() && text::trim(rest).len() > 0 ==> behind_from(lines, prefix, 0) == Some(
            text::trim(rest),
        ),
        at < lines.len() && text::trim(rest).len() == 0 ==> behind_from(lines, prefix, 0) is None,
{
    lemma_behind_first(lines, prefix, 0, at);
    if at < lines.len() {
        text::a_prefix_is_taken_off_where_it_stands(lines[at], prefix, rest);
        assert(lines[at].skip(prefix.len() as int) =~= rest);
    }
}

/// A line says a field with something behind it.
pub open spec fn says_field(line: Seq<char>, field: Seq<char>) -> bool {
    exists|rest: Seq<char>| text::trim(line) == field + rest && #[trigger] text::trim(rest).len() > 0
}

proof fn lemma_says_field(line: Seq<char>, field: Seq<char>)
    ensures
        says_field(line, field) <==> text::begins(text::trim(line), field) && text::trim(
            text::trim(line).skip(field.len() as int),
        ).len() > 0,
{
    let t = text::trim(line);
    if says_field(line, field) {
        let rest = choose|rest: Seq<char>| t == field + rest && #[trigger] text::trim(rest).len() > 0;
        text::a_prefix_is_taken_off_where_it_stands(t, field, rest);
        assert(t.skip(field.len() as int) =~= rest);
    }
    if text::begins(t, field) && text::trim(t.skip(field.len() as int)).len() > 0 {
        let rest = t.skip(field.len() as int);
        text::a_prefix_is_taken_off_where_it_stands(t, field, rest);
        assert(t =~= field + rest) by {
            assert(t.subrange(0, field.len() as int) =~= field);
            assert(t =~= t.subrange(0, field.len() as int) + rest);
        }
    }
}

proof fn lemma_whois_field(lines: Seq<Seq<char>>, field: Seq<char>, i: int, at: int)
    requires
        0 <= i <= at <= lines.len(),
        forall|k: int| i <= k < at ==> !says_field(#[trigger] lines[k], field),
    ensures
        whois_field(lines, field, i) == whois_field(lines, field, at),
    decreases at - i,
{
    if i < at {
        assert(!says_field(lines[i], field));
        lemma_says_field(lines[i], field);
        lemma_whois_field(lines, field, i + 1, at);
    }
}

/// A field of a registry's answer is what the first line that says it has behind
/// it; lines that leave it blank are passed over.
pub proof fn a_registry_field_is_the_first_that_is_not_blank(
    lines: Seq<Seq<char>>,
    field: Seq<char>,
    rest: Seq<char>,
    at: int,
)
    requires
        0 <= at <= lines.len(),
        forall|k: int| 0 <= k < at ==> !says_field(#[trigger] lines[k], field),
        at < lines.len() ==> text::trim(lines[at]) == field + rest && text::trim(rest).len() > 0,
    ensures
        at == lines.len() ==> whois_field(lines, field, 0) is None,
        at < lines.len() ==> whois_field(lines, field, 0) == Some(text::trim(rest)),
{
    lemma_whois_field(lines, field, 0, at);
    if at < lines.len() {
        text::a_prefix_is_taken_off_where_it_stands(text::trim(lines[at]), field, rest);
        assert(text::trim(lines[at]).skip(field.len() as int) =~= rest);
    }
}

/// An organisation is said by the first of these fields that the answer holds,
/// wherever in it they stand.
pub proof fn an_organisation_is_said_by_the_first_of_five_fields(output: Seq<char>)
    ensures
        ({
            let lines = text::lines(output);
            let a = whois_field(lines, "OrgName:"@, 0);
            let b = whois_field(lines, "org-name:"@, 0);
            let c = whois_field(lines, "netname:"@, 0);
            let d = whois_field(lines, "descr:"@, 0);
            let e = whois_field(lines, "Organization:"@, 0);
            org_in(output) == (if a is Some {
                a
            } else if b is Some {
                b
            } else if c is Some {
                c
            } else if d is Some {
                d
            } else {
                e
            })
        }),
{
    reveal_with_fuel(org_from, 6);
}

/// The prefix of a hardware address is its first three groups without the colons,
/// in capitals, and only where that is six bytes.
pub proof fn the_prefix_of_a_hardware_address_is_three_groups(groups: Seq<Seq<char>>)
    requires
        groups.len() >= 3,
        forall|i: int| 0 <= i < groups.len() ==> !(#[trigger] groups[i]).contains(':'),
    ensures
        ({
            let mac = text::join(groups, ":"@);
            let prefix = text::uppercased(groups[0] + groups[1] + groups[2]);
            &&& utf8_len(prefix) == 6 ==> oui_of(Some(mac)) == Some(prefix)
            &&& utf8_len(prefix) != 6 ==> oui_of(Some(mac)) is None
        }),
        oui_of(None) is None,
{
    reveal_strlit(":");
    assert(":"@ =~= seq![':']);
    text::splitting_undoes_joining(groups, ':');
    reveal_with_fuel(joined_upto, 4);
    assert(joined_upto(groups, 3) =~= groups[0] + groups[1] + groups[2]);
}

/// An answer is out of date once its term is over, and what was never asked is not
/// known.
pub proof fn an_answer_is_out_of_date_after_its_term(
    cache: Map<Seq<char>, (Option<String>, i64)>,
    key: Seq<char>,
    answer: Option<String>,
    then: i64,
    now: i64,
    ttl: i64,
)
    ensures
        now - then >= ttl ==> fresh(cache.insert(key, (answer, then)), key, now, ttl) is None
            && known(cache.insert(key, (answer, then)), key, now, ttl) is None,
        now - then < ttl && answer is Some ==> known(
            cache.insert(key, (answer, then)),
            key,
            now,
            ttl,
        ) == Some(answer.unwrap()@),
        !cache.dom().contains(key) ==> fresh(cache, key, now, ttl) is None && known(
            cache,
            key,
            now,
            ttl,
        ) is None,
{
}

/// Hostnames are believed for five minutes and organisations for an hour.
pub proof fn hostnames_go_out_of_date_before_organisations(
    book: NameBook,
    ip: Seq<char>,
    now: i64,
    found: Option<Seq<char>>,
)
    ensures
        ({
            let asked = book.hostnames@.dom().contains(ip);
            let at = book.hostnames@[ip].1;
            &&& asked && now - at < 300 ==> book.hostname(ip, now) == spelled_or(
                book.hostnames@[ip].0,
            ) && book.hostname_given(ip, found, now) == book.hostname(ip, now)
            &&& !asked || now - at >= 300 ==> book.hostname(ip, now) is None && book.hostname_given(
                ip,
                found,
                now,
            ) == found
        }),
        ({
            let asked = book.orgs@.dom().contains(ip);
            let at = book.orgs@[ip].1;
            &&& asked && now - at < 3600 ==> book.org(ip, now) == spelled_or(book.orgs@[ip].0)
                && book.org_given(ip, found, now) == book.org(ip, now)
            &&& !asked || now - at >= 3600 ==> book.org(ip, now) is None && book.org_given(
                ip,
                found,
                now,
            ) == found
        }),
{
}

/// A name is chosen for an address, and else for a hardware address in small
/// letters.
pub proof fn a_name_is_chosen_for_the_address_first(
    book: NameBook,
    ip: Seq<char>,
    mac: Seq<char>,
)
    ensures
        ({
            let chosen = book.chosen@;
            let low = text::lowercased(mac);
            &&& chosen.dom().contains(ip) ==> book.name_chosen(ip, Some(mac)) == Some(chosen[ip]@)
                && book.name_chosen(ip, None) == Some(chosen[ip]@)
            &&& !chosen.dom().contains(ip) && chosen.dom().contains(low) ==> book.name_chosen(
                ip,
                Some(mac),
            ) == Some(chosen[low]@)
            &&& !chosen.dom().contains(ip) && !chosen.dom().contains(low) ==> book.name_chosen(
                ip,
                Some(mac),
            ) is None
            &&& !chosen.dom().contains(ip) ==> book.name_chosen(ip, None) is None
        }),
{
}

/// A vendor on record is not looked up again; one that is not is the registered
/// name, tidied.
pub proof fn a_vendor_is_looked_up_once(book: NameBook, mac: Seq<char>, raw: Seq<char>)
    ensures
        ({
            let key = oui_of(Some(mac));
            &&& key is None ==> book.vendor_given(Some(mac), Some(raw)) is None && book.vendor(
                Some(mac),
            ) is None
            &&& key is Some && book.vendors@.dom().contains(key.unwrap()) ==> book.vendor_given(
                Some(mac),
                Some(raw),
            ) == book.vendor(Some(mac)) && book.vendor(Some(mac)) == spelled_or(
                book.vendors@[key.unwrap()],
            )
            &&& key is Some && !book.vendors@.dom().contains(key.unwrap()) ==> book.vendor_given(
                Some(mac),
                Some(raw),
            ) == Some(tidied(raw)) && book.vendor_given(Some(mac), None) is None && book.vendor(
                Some(mac),
            ) is None
        }),
        book.vendor_given(None, Some(raw)) is None,
{
}

/// A registered owner stands behind `ID_OUI_FROM_DATABASE=`, at the beginning of
/// the first line that begins so.
pub proof fn a_registered_owner_stands_behind_its_key(
    output: Seq<char>,
    rest: Seq<char>,
    at: int,
)
    requires
        0 <= at <= text::lines(output).len(),
        forall|k: int|
            0 <= k < at ==> !text::begins(
                #[trigger] text::lines(output)[k],
                "ID_OUI_FROM_DATABASE="@,
            ),
        at < text::lines(output).len() ==> text::lines(output)[at] == "ID_OUI_FROM_DATABASE="@
            + rest && text::trim(rest).len() > 0,
    ensures
        at < text::lines(output).len() ==> owner_in(output) == Some(text::trim(rest)),
        at == text::lines(output).len() ==> owner_in(output) is None,
{
    the_first_line_with_the_prefix_says_the_owner(
        text::lines(output),
        "ID_OUI_FROM_DATABASE="@,
        rest,
        at,
    );
}

/// An organisation that is not known is a question mark, and one that is known is
/// itself.
pub proof fn an_unknown_organisation_is_a_question_mark(org: Seq<char>)
    ensures
        org_or_unknown(Some(org)) == org,
        org_or_unknown(None) == seq!['?'],
{
    reveal_strlit("?");
    assert("?"@ =~= seq!['?']);
}

/// What a book remembers of an address is what was found, from now on, unless it
/// still believed an answer; then it remembers as before. Nothing else changes.
pub proof fn a_book_remembers_what_was_found(
    before: Dated,
    after: Dated,
    ip: Seq<char>,
    other: Seq<char>,
    found: Option<Seq<char>>,
    now: i64,
    ttl: i64,
)
    requires
        remembers(before, after, ip, found, now, ttl),
        other != ip,
    ensures
        fresh(before@, ip, now, ttl) is Some ==> after == before,
        fresh(before@, ip, now, ttl) is None ==> after@.dom().contains(ip) && after@[ip].1 == now
            && spelled_or(after@[ip].0) == found,
        after@.dom().contains(other) == before@.dom().contains(other),
        before@.dom().contains(other) ==> after@[other] == before@[other],
{
}

/// What a book remembers of a vendor is what was listed, tidied, under the prefix
/// of the hardware address, unless it knew it already. Nothing else changes.
pub proof fn a_book_remembers_the_vendor_listed(
    before: NameBook,
    after: NameBook,
    mac: Seq<char>,
    raw: Seq<char>,
    other: Seq<char>,
)
    requires
        before.remembers_vendor(after, Some(mac), Some(raw)),
        oui_of(Some(mac)) is Some,
        other != oui_of(Some(mac)).unwrap(),
    ensures
        ({
            let key = oui_of(Some(mac)).unwrap();
            &&& before.vendors@.dom().contains(key) ==> after.vendors == before.vendors
            &&& !before.vendors@.dom().contains(key) ==> after.vendors@.dom().contains(key)
                && spelled_or(after.vendors@[key]) == Some(tidied(raw))
            &&& after.vendors@.dom().contains(other) == before.vendors@.dom().contains(other)
            &&& before.vendors@.dom().contains(other) ==> after.vendors@[other]
                == before.vendors@[other]
        }),
{
}

} // verus!
