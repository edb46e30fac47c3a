//! Live TCP connections, as `ss` lists them: polling, speeds and sorting.

use vstd::prelude::*;

use crate::addr;
use crate::alert;
use crate::alert::{push_one_decimal, push_padded, Civil};
use crate::order;
use crate::order::stable_order;
use crate::rate;
use crate::rate::Rate;
use crate::text;
use crate::text::{
    copy_range, digit, find_text, is_listed, push_dec, rcut_once, read_unsigned, spells, split_char,
    split_lines, split_words, text_at_most, text_eq, to_chars, to_text,
};

verus! {

// -- Constants ----------------------------------------------------------------

/// How often `ss` is polled for updated connection data, in seconds.
pub const POLL_INTERVAL: u64 = 1;

/// Number of table columns.
pub const COL_COUNT: usize = 7;

/// Column header labels, in display order.
pub const COL_LABELS: [&'static str; 7] = [
    "REMOTE_IP",
    "ISP",
    "DOWN",
    "UP",
    "SENT",
    "RECV",
    "CONNECTED",
];

/// Which column to sort by on startup: bytes received, most first.
pub const DEFAULT_SORT_COL: usize = 5;

// -- Connections --------------------------------------------------------------

/// A tracked TCP connection.
pub struct Conn {
    /// The local and the remote endpoint.
    pub key: String,
    pub remote: String,
    pub isp: String,
    pub state: String,
    pub bytes_sent: u64,
    pub bytes_recv: u64,
    /// Bytes per second.
    pub speed_up: Rate,
    pub speed_down: Rate,
    /// When it was first seen, in nanoseconds since the epoch.
    pub first_seen: u64,
}

pub struct ConnView {
    pub key: Seq<char>,
    pub remote: Seq<char>,
    pub isp: Seq<char>,
    pub state: Seq<char>,
    pub bytes_sent: u64,
    pub bytes_recv: u64,
    pub speed_up: Rate,
    pub speed_down: Rate,
    pub first_seen: u64,
}

impl View for Conn {
    type V = ConnView;

    open spec fn view(&self) -> ConnView {
        ConnView {
            key: self.key@,
            remote: self.remote@,
            isp: self.isp@,
            state: self.state@,
            bytes_sent: self.bytes_sent,
            bytes_recv: self.bytes_recv,
            speed_up: self.speed_up,
            speed_down: self.speed_down,
            first_seen: self.first_seen,
        }
    }
}

pub open spec fn conns_view(v: Seq<Conn>) -> Seq<ConnView> {
    v.map_values(|c: Conn| c@)
}

impl Conn {
    pub fn copy(&self) -> (out: Conn)
        ensures
            out@ == self@,
    {
        Conn {
            key: self.key.clone(),
            remote: self.remote.clone(),
            isp: self.isp.clone(),
            state: self.state.clone(),
            bytes_sent: self.bytes_sent,
            bytes_recv: self.bytes_recv,
            speed_up: self.speed_up,
            speed_down: self.speed_down,
            first_seen: self.first_seen,
        }
    }
}

/// The connections, what is known of their operators, and how they are sorted.
pub struct App {
    pub conns: Vec<Conn>,
    /// Operators by address.
    pub isp_cache: crate::table::Table<String>,
    /// Addresses that have been looked up, or are being.
    pub pending_lookups: Vec<String>,
    pub sort_col: usize,
}

// -- What `ss` lists ----------------------------------------------------------

/// The states of connections that are shown.
pub open spec fn is_shown(state: Seq<char>) -> bool {
    state == "ESTAB"@ || state == "SYN-SENT"@ || state == "SYN-RECV"@ || state == "CLOSE-WAIT"@
        || state == "TIME-WAIT"@ || state == "FIN-WAIT1"@ || state == "FIN-WAIT2"@ || state
        == "LAST-ACK"@
}

/// The digits that a text begins with.
pub open spec fn leading_digits(s: Seq<char>, i: int) -> int
    decreases s.len() - i,
{
    if 0 <= i < s.len() && text::is_digit(s[i]) {
        leading_digits(s, i + 1)
    } else {
        i
    }
}

/// The number behind the first occurrence of a field's name, 0 where there is
/// none or it is too large.
pub open spec fn field_number(s: Seq<char>, field: Seq<char>) -> nat {
    let pos = text::find_from(s, field, 0);
    if pos < 0 {
        0
    } else {
        let rest = s.skip(pos + field.len());
        match text::unsigned(rest.take(leading_digits(rest, 0)), u64::MAX as nat) {
            Some(n) => n,
            None => 0,
        }
    }
}

proof fn lemma_leading_digits(s: Seq<char>, i: int)
    requires
        0 <= i <= s.len(),
    ensures
        i <= leading_digits(s, i) <= s.len(),
    decreases s.len() - i,
{
    if i < s.len() && text::is_digit(s[i]) {
        lemma_leading_digits(s, i + 1);
    }
}

/// Extract a numeric value from a `key:value` pair in the info text of `ss`.
pub fn extract_field(s: &str, field: &str) -> (out: u64)
    ensures
        out == field_number(s@, field@),
{
    let v = to_chars(s);
    let name = to_chars(field);
    match find_text(&v, &name) {
        None => 0,
        Some(pos) => {
            let end: usize = v.len();
            let from: usize = pos + name.len();
            let rest = copy_range(&v, from, end);
            assert(rest@ =~= v@.skip(from as int));
            let mut n: usize = 0;
            while n < rest.len() && digit(rest[n])
                invariant
                    n <= rest.len(),
                    leading_digits(rest@, 0) == leading_digits(rest@, n as int),
                decreases rest.len() - n,
            {
                n = n + 1;
            }
            let digits = copy_range(&rest, 0, n);
            assert(digits@ =~= rest@.take(n as int));
            match read_unsigned(&digits, u64::MAX) {
                Some(n) => n,
                None => 0,
            }
        },
    }
}

/// A connection as `ss` lists it.
pub struct Listed {
    pub key: String,
    pub remote: String,
    pub state: String,
    pub sent: u64,
    pub recv: u64,
}

pub struct ListedView {
    pub key: Seq<char>,
    pub remote: Seq<char>,
    pub state: Seq<char>,
    pub sent: u64,
    pub recv: u64,
}

impl View for Listed {
    type V = ListedView;

    open spec fn view(&self) -> ListedView {
        ListedView {
            key: self.key@,
            remote: self.remote@,
            state: self.state@,
            sent: self.sent,
            recv: self.recv,
        }
    }
}

pub open spec fn listed_view(v: Seq<Listed>) -> Seq<ListedView> {
    v.map_values(|l: Listed| l@)
}

/// An indented line belongs to the connection above it.
pub open spec fn indented(line: Seq<char>) -> bool {
    line.len() > 0 && (line[0] == '\t' || line[0] == ' ')
}

/// Where the indented lines from `i` on end.
pub open spec fn info_end(lines: Seq<Seq<char>>, i: int) -> int
    decreases lines.len() - i,
{
    if 0 <= i < lines.len() && indented(lines[i]) {
        info_end(lines, i + 1)
    } else {
        i
    }
}

/// The lines from `i` up to `j`, each with a space behind it.
pub open spec fn info_text(lines: Seq<Seq<char>>, i: int, j: int) -> Seq<char>
    decreases j - i,
{
    if j <= i {
        Seq::empty()
    } else {
        info_text(lines, i, j - 1) + lines[j - 1] + " "@
    }
}

proof fn lemma_info_end(lines: Seq<Seq<char>>, i: int)
    requires
        0 <= i <= lines.len(),
    ensures
        i <= info_end(lines, i) <= lines.len(),
    decreases lines.len() - i,
{
    if i < lines.len() && indented(lines[i]) {
        lemma_info_end(lines, i + 1);
    }
}

/// The connections on the lines from `i` on. A connection's line holds its
/// state, two queues and its endpoints; what is indented below it is its info.
pub open spec fn listed_from(lines: Seq<Seq<char>>, i: int) -> Seq<ListedView>
    decreases lines.len() - i,
{
    if i < 0 || i >= lines.len() {
        Seq::empty()
    } else {
        let w = text::words(lines[i]);
        if w.len() < 5 || !is_shown(w[0]) {
            listed_from(lines, i + 1)
        } else {
            let end = if i < info_end(lines, i + 1) <= lines.len() {
                info_end(lines, i + 1)
            } else {
                i + 1
            };
            let info = info_text(lines, i + 1, end);
            seq![
                ListedView {
                    key: w[3] + "->"@ + w[4],
                    remote: w[4],
                    state: w[0],
                    sent: field_number(info, "bytes_sent:"@) as u64,
                    recv: field_number(info, "bytes_received:"@) as u64,
                },
            ] + listed_from(lines, end)
        }
    }
}

fn shown(state: &Vec<char>) -> (b: bool)
    ensures
        b == is_shown(state@),
{
    spells(state, "ESTAB") || spells(state, "SYN-SENT") || spells(state, "SYN-RECV") || spells(
        state,
        "CLOSE-WAIT",
    ) || spells(state, "TIME-WAIT") || spells(state, "FIN-WAIT1") || spells(state, "FIN-WAIT2")
        || spells(state, "LAST-ACK")
}

/// The connections in the output of `ss -tinH`.
pub fn read_listed(output: &str) -> (out: Vec<Listed>)
    ensures
        listed_view(out@) == listed_from(text::lines(output@), 0),
{
    let lines = split_lines(&to_chars(output));
    let ghost model = text::lines(output@);
    let mut out: Vec<Listed> = Vec::new();
    let mut i: usize = 0;
    assert(listed_view(out@) + listed_from(model, 0) =~= listed_from(model, 0));
    while i < lines.len()
        invariant
            i <= lines.len(),
            model == text::spelled(lines@),
            listed_view(out@) + listed_from(model, i as int) == listed_from(model, 0),
        decreases lines.len() - i,
    {
        assert(model[i as int] == lines@[i as int]@);
        let words = split_words(&lines[i]);
        let ghost w = text::words(model[i as int]);
        assert(forall|k: int| 0 <= k < words@.len() ==> w[k] == (#[trigger] words@[k])@);
        if words.len() < 5 || !shown(&words[0]) {
            i = i + 1;
            continue ;
        }
        let ghost start = i + 1;
        proof {
            lemma_info_end(model, start);
        }
        let mut info: String = String::new();
        let mut j: usize = i + 1;
        assert(info@ =~= info_text(model, start, start));
        while j < lines.len() && lines[j].len() > 0 && (lines[j][0] == '\t' || lines[j][0] == ' ')
            invariant
                i < lines.len(),
                start == i + 1,
                start <= j <= lines.len(),
                model == text::spelled(lines@),
                info_end(model, start) == info_end(model, j as int),
                info@ == info_text(model, start, j as int),
            decreases lines.len() - j,
        {
            assert(model[j as int] == lines@[j as int]@);
            info.append(to_text(&lines[j]).as_str());
            info.append(" ");
            j = j + 1;
        }
        if j < lines.len() {
            assert(model[j as int] == lines@[j as int]@);
        }
        assert(info_end(model, j as int) == j);
        let mut key = to_text(&words[3]);
        key.append("->");
        key.append(to_text(&words[4]).as_str());
        let listed = Listed {
            key,
            remote: to_text(&words[4]),
            state: to_text(&words[0]),
            sent: extract_field(info.as_str(), "bytes_sent:"),
            recv: extract_field(info.as_str(), "bytes_received:"),
        };
        let ghost before = listed_view(out@);
        let ghost rest = listed_from(model, j as int);
        out.push(listed);
        assert(listed_view(out@) =~= before.push(listed@));
        assert(listed_view(out@) + rest =~= before + (seq![listed@] + rest));
        i = j;
    }
    assert(listed_view(out@) + listed_from(model, i as int) =~= listed_view(out@));
    out
}

// -- Polling ------------------------------------------------------------------

/// The address of an endpoint, which is what stands before its last colon.
pub open spec fn host_of(remote: Seq<char>) -> Seq<char> {
    match text::rsplit_once(remote, ':') {
        Some((ip, _)) => ip,
        None => remote,
    }
}

fn host(remote: &str) -> (out: String)
    ensures
        out@ == host_of(remote@),
{
    match rcut_once(&to_chars(remote), ':') {
        Some((ip, _)) => to_text(&ip),
        None => remote.to_owned(),
    }
}

/// A speed after one more interval: the bytes moved in it, or half the speed
/// before where none were, so that a pause fades rather than flickers.
pub open spec fn speed_after(before: Rate, last: u64, now: u64) -> Rate {
    if now > last {
        Rate { bits: rate::double_of((now - last) as nat) as u64 }
    } else {
        Rate { bits: rate::half_of(before.bits as nat) as u64 }
    }
}

fn next_speed(before: Rate, last: u64, now: u64) -> (out: Rate)
    requires
        before.bits < rate::INFINITY_BITS,
    ensures
        out == speed_after(before, last, now),
        out.bits < rate::INFINITY_BITS,
{
    if now > last {
        Rate::of_int(now - last)
    } else {
        before.half()
    }
}

impl ConnView {
    /// A connection seen for the first time.
    pub open spec fn opened(l: ListedView, now: u64) -> ConnView {
        ConnView {
            key: l.key,
            remote: l.remote,
            isp: "..."@,
            state: l.state,
            bytes_sent: l.sent,
            bytes_recv: l.recv,
            speed_up: Rate { bits: 0 },
            speed_down: Rate { bits: 0 },
            first_seen: now,
        }
    }

    /// The connection after being listed again.
    pub open spec fn polled(self, l: ListedView) -> ConnView {
        ConnView {
            state: l.state,
            bytes_sent: l.sent,
            bytes_recv: l.recv,
            speed_up: speed_after(self.speed_up, self.bytes_sent, l.sent),
            speed_down: speed_after(self.speed_down, self.bytes_recv, l.recv),
            ..self
        }
    }

    /// The connection with its operator, where that has been found out.
    pub open spec fn with_isp(self, cache: Map<Seq<char>, String>) -> ConnView {
        if self.isp == "..."@ && cache.dom().contains(host_of(self.remote)) {
            ConnView { isp: cache[host_of(self.remote)]@, ..self }
        } else {
            self
        }
    }
}

/// Where a connection stands from position `i` on; the length where it does not.
pub open spec fn position(conns: Seq<ConnView>, key: Seq<char>, i: int) -> int
    decreases conns.len() - i,
{
    if i < 0 || i >= conns.len() {
        conns.len() as int
    } else if conns[i].key == key {
        i
    } else {
        position(conns, key, i + 1)
    }
}

proof fn lemma_position(conns: Seq<ConnView>, key: Seq<char>, i: int)
    requires
        0 <= i <= conns.len(),
    ensures
        i <= position(conns, key, i) <= conns.len(),
        position(conns, key, i) < conns.len() ==> conns[position(conns, key, i)].key == key,
        position(conns, key, i) == conns.len() ==> forall|k: int|
            i <= k < conns.len() ==> (#[trigger] conns[k]).key != key,
    decreases conns.len() - i,
{
    if i < conns.len() && conns[i].key != key {
        lemma_position(conns, key, i + 1);
    }
}

/// A poll, some way through: the connections, the addresses whose operators have
/// been asked for, and those that are to be asked for now.
pub struct Polling {
    pub conns: Seq<ConnView>,
    pub pending: Seq<Seq<char>>,
    pub wanted: Seq<Seq<char>>,
}

impl Polling {
    /// The poll after one more listed connection. Each address is asked for
    /// once.
    pub open spec fn take(self, l: ListedView, now: u64) -> Polling {
        let p = position(self.conns, l.key, 0);
        if p < self.conns.len() {
            Polling { conns: self.conns.update(p, self.conns[p].polled(l)), ..self }
        } else {
            let ip = host_of(l.remote);
            let conns = self.conns.push(ConnView::opened(l, now));
            if self.pending.contains(ip) {
                Polling { conns, ..self }
            } else {
                Polling { conns, pending: self.pending.push(ip), wanted: self.wanted.push(ip) }
            }
        }
    }

    pub open spec fn take_upto(self, listed: Seq<ListedView>, now: u64, n: int) -> Polling
        decreases n,
    {
        if n <= 0 {
            self
        } else {
            self.take_upto(listed, now, n - 1).take(listed[n - 1], now)
        }
    }
}

/// A connection that is listed.
pub open spec fn is_seen(listed: Seq<ListedView>, key: Seq<char>) -> bool {
    exists|i: int| 0 <= i < listed.len() && (#[trigger] listed[i]).key == key
}

/// Those of the first `n` connections that are still listed, with their
/// operators where those have been found out.
pub open spec fn kept_upto(
    conns: Seq<ConnView>,
    listed: Seq<ListedView>,
    cache: Map<Seq<char>, String>,
    n: int,
) -> Seq<ConnView>
    decreases n,
{
    if n <= 0 {
        Seq::empty()
    } else if is_seen(listed, conns[n - 1].key) {
        kept_upto(conns, listed, cache, n - 1).push(conns[n - 1].with_isp(cache))
    } else {
        kept_upto(conns, listed, cache, n - 1)
    }
}

/// No connection stands twice, and every speed is a finite double.
pub open spec fn well_formed(conns: Seq<ConnView>) -> bool {
    &&& forall|i: int, j: int|
        0 <= i < j < conns.len() ==> (#[trigger] conns[i]).key != (#[trigger] conns[j]).key
    &&& forall|i: int|
        0 <= i < conns.len() ==> (#[trigger] conns[i]).speed_up.bits < rate::INFINITY_BITS
            && conns[i].speed_down.bits < rate::INFINITY_BITS
}

impl App {
    pub open spec fn wf(self) -> bool {
        &&& well_formed(conns_view(self.conns@))
        &&& self.isp_cache.wf()
    }

    /// The poll of a listing.
    pub open spec fn polling(self, listed: Seq<ListedView>, now: u64) -> Polling {
        (Polling {
            conns: conns_view(self.conns@),
            pending: text::texts(self.pending_lookups@),
            wanted: Seq::empty(),
        }).take_upto(listed, now, listed.len() as int)
    }

    pub fn new() -> (out: App)
        ensures
            out.wf(),
            conns_view(out.conns@) == Seq::<ConnView>::empty(),
            out.isp_cache@ == Map::<Seq<char>, String>::empty(),
            text::texts(out.pending_lookups@) == Seq::<Seq<char>>::empty(),
            out.sort_col == DEFAULT_SORT_COL,
    {
        let out = App {
            conns: Vec::new(),
            isp_cache: crate::table::Table::new(),
            pending_lookups: Vec::new(),
            sort_col: DEFAULT_SORT_COL,
        };
        assert(conns_view(out.conns@) =~= Seq::<ConnView>::empty());
        assert(text::texts(out.pending_lookups@) =~= Seq::<Seq<char>>::empty());
        out
    }

    fn find(&self, key: &str) -> (out: Option<usize>)
        ensures
            match out {
                Some(p) => p == position(conns_view(self.conns@), key@, 0) && p
                    < self.conns@.len(),
                None => position(conns_view(self.conns@), key@, 0) == self.conns@.len(),
            },
    {
        let ghost all = conns_view(self.conns@);
        let mut i: usize = 0;
        while i < self.conns.len()
            invariant
                i <= self.conns.len(),
                all == conns_view(self.conns@),
                position(all, key@, 0) == position(all, key@, i as int),
            decreases self.conns.len() - i,
        {
            assert(all[i as int] == self.conns@[i as int]@);
            if text_eq(self.conns[i].key.as_str(), key) {
                return Some(i);
            }
            i = i + 1;
        }
        None
    }

    /// Ask for the operator of a remote address. Returns the address to look up,
    /// unless it has been asked for before.
    pub fn spawn_isp_lookup(&mut self, remote: &str) -> (out: Option<String>)
        ensures
            final(self).conns == old(self).conns,
            final(self).isp_cache == old(self).isp_cache,
            final(self).sort_col == old(self).sort_col,
            ({
                let pending = text::texts(old(self).pending_lookups@);
                if pending.contains(host_of(remote@)) {
                    out is None && final(self).pending_lookups == old(self).pending_lookups
                } else {
                    out is Some && out.unwrap()@ == host_of(remote@) && text::texts(
                        final(self).pending_lookups@,
                    ) == pending.push(host_of(remote@))
                }
            }),
    {
        let ip = host(remote);
        if is_listed(&self.pending_lookups, ip.as_str()) {
            return None;
        }
        let ghost before = text::texts(self.pending_lookups@);
        self.pending_lookups.push(ip.clone());
        assert(text::texts(self.pending_lookups@) =~= before.push(ip@));
        Some(ip)
    }

    /// Remember the operator of an address.
    pub fn learn_isp(&mut self, ip: String, isp: String)
        requires
            old(self).wf(),
        ensures
            final(self).wf(),
            final(self).conns == old(self).conns,
            final(self).pending_lookups == old(self).pending_lookups,
            final(self).sort_col == old(self).sort_col,
            final(self).isp_cache@ == old(self).isp_cache@.insert(ip@, isp),
    {
        self.isp_cache.put(ip, isp);
    }

    fn take(&mut self, listed: &Listed, wanted: &mut Vec<String>, now: u64)
        requires
            old(self).wf(),
        ensures
            final(self).wf(),
            final(self).isp_cache == old(self).isp_cache,
            final(self).sort_col == old(self).sort_col,
            (Polling {
                conns: conns_view(final(self).conns@),
                pending: text::texts(final(self).pending_lookups@),
                wanted: text::texts(final(wanted)@),
            }) == (Polling {
                conns: conns_view(old(self).conns@),
                pending: text::texts(old(self).pending_lookups@),
                wanted: text::texts(old(wanted)@),
            }).take(listed@, now),
    {
        let ghost before = conns_view(self.conns@);
        let ghost asked = text::texts(wanted@);
        proof {
            lemma_position(before, listed.key@, 0);
            lemma_take_well_formed(before, listed@, now);
        }
        match self.find(listed.key.as_str()) {
            Some(p) => {
                assert(before[p as int] == self.conns@[p as int]@);
                let up = next_speed(
                    self.conns[p].speed_up,
                    self.conns[p].bytes_sent,
                    listed.sent,
                );
                let down = next_speed(
                    self.conns[p].speed_down,
                    self.conns[p].bytes_recv,
                    listed.recv,
                );
                self.conns[p].speed_up = up;
                self.conns[p].speed_down = down;
                self.conns[p].bytes_sent = listed.sent;
                self.conns[p].bytes_recv = listed.recv;
                self.conns[p].state = listed.state.clone();
                assert(conns_view(self.conns@) =~= before.update(
                    p as int,
                    before[p as int].polled(listed@),
                ));
            },
            None => {
                match self.spawn_isp_lookup(listed.remote.as_str()) {
                    Some(ip) => {
                        wanted.push(ip);
                        assert(text::texts(wanted@) =~= asked.push(ip@));
                    },
                    None => {},
                }
                let conn = Conn {
                    key: listed.key.clone(),
                    remote: listed.remote.clone(),
                    isp: "...".to_owned(),
                    state: listed.state.clone(),
                    bytes_sent: listed.sent,
                    bytes_recv: listed.recv,
                    speed_up: Rate::zero(),
                    speed_down: Rate::zero(),
                    first_seen: now,
                };
                self.conns.push(conn);
                assert(conns_view(self.conns@) =~= before.push(conn@));
            },
        }
    }

    /// Update the connections from the output of `ss -tinH`. Returns the
    /// addresses whose operators are to be looked up.
    pub fn poll(&mut self, output: &str, now: u64) -> (wanted: Vec<String>)
        requires
            old(self).wf(),
        ensures
            final(self).wf(),
            final(self).isp_cache == old(self).isp_cache,
            final(self).sort_col == old(self).sort_col,
            ({
                let listed = listed_from(text::lines(output@), 0);
                let polled = old(self).polling(listed, now);
                &&& text::texts(wanted@) == polled.wanted
                &&& text::texts(final(self).pending_lookups@) == polled.pending
                &&& conns_view(final(self).conns@) == kept_upto(
                    polled.conns,
                    listed,
                    old(self).isp_cache@,
                    polled.conns.len() as int,
                )
            }),
    {
        let listed = read_listed(output);
        let ghost model = listed_from(text::lines(output@), 0);
        let mut wanted: Vec<String> = Vec::new();
        let ghost start = Polling {
            conns: conns_view(self.conns@),
            pending: text::texts(self.pending_lookups@),
            wanted: Seq::empty(),
        };
        let mut i: usize = 0;
        assert(text::texts(wanted@) =~= Seq::<Seq<char>>::empty());
        assert(model.len() == listed@.len());
        while i < listed.len()
            invariant
                i <= listed.len(),
                model == listed_view(listed@),
                self.wf(),
                self.isp_cache == old(self).isp_cache,
                self.sort_col == old(self).sort_col,
                (Polling {
                    conns: conns_view(self.conns@),
                    pending: text::texts(self.pending_lookups@),
                    wanted: text::texts(wanted@),
                }) == start.take_upto(model, now, i as int),
            decreases listed.len() - i,
        {
            assert(model[i as int] == listed@[i as int]@);
            self.take(&listed[i], &mut wanted, now);
            i = i + 1;
        }
        self.keep_listed(&listed);
        wanted
    }

    /// Forget the connections that are no longer listed, and name the operators
    /// of the others where they have been found out.
    fn keep_listed(&mut self, listed: &Vec<Listed>)
        requires
            old(self).wf(),
        ensures
            final(self).wf(),
            final(self).isp_cache == old(self).isp_cache,
            final(self).sort_col == old(self).sort_col,
            final(self).pending_lookups == old(self).pending_lookups,
            conns_view(final(self).conns@) == kept_upto(
                conns_view(old(self).conns@),
                listed_view(listed@),
                old(self).isp_cache@,
                old(self).conns@.len() as int,
            ),
    {
        let ghost before = conns_view(self.conns@);
        let ghost model = listed_view(listed@);
        let ghost cache = self.isp_cache@;
        let ghost mut n: int = 0;
        let mut i: usize = 0;
        assert(before =~= kept_upto(before, model, cache, 0) + before.skip(0));
        while i < self.conns.len()
            invariant
                well_formed(before),
                before == conns_view(old(self).conns@),
                model == listed_view(listed@),
                cache == self.isp_cache@,
                self.isp_cache == old(self).isp_cache,
                self.sort_col == old(self).sort_col,
                self.pending_lookups == old(self).pending_lookups,
                0 <= n <= before.len(),
                i <= self.conns.len(),
                i == kept_upto(before, model, cache, n).len(),
                conns_view(self.conns@) == kept_upto(before, model, cache, n) + before.skip(n),
            decreases self.conns.len() - i,
        {
            let ghost so_far = conns_view(self.conns@);
            assert(so_far.len() == self.conns@.len());
            assert(so_far[i as int] == self.conns@[i as int]@);
            assert(so_far[i as int] == before[n]);
            if listing_holds(listed, self.conns[i].key.as_str()) {
                if text_eq(self.conns[i].isp.as_str(), "...") {
                    let ip = host(self.conns[i].remote.as_str());
                    match self.isp_cache.get(ip.as_str()) {
                        Some(isp) => {
                            let found: String = isp.clone();
                            self.conns[i].isp = found;
                        },
                        None => {},
                    }
                }
                assert(self.conns@[i as int]@ == before[n].with_isp(cache));
                assert(conns_view(self.conns@) =~= so_far.update(
                    i as int,
                    before[n].with_isp(cache),
                ));
                i = i + 1;
            } else {
                let _ = self.conns.remove(i);
                assert(conns_view(self.conns@) =~= so_far.remove(i as int));
            }
            proof {
                n = n + 1;
            }
            assert(conns_view(self.conns@) =~= kept_upto(before, model, cache, n) + before.skip(
                n,
            ));
        }
        proof {
            assert(conns_view(self.conns@).len() == self.conns@.len());
            assert(n == before.len());
            assert(conns_view(self.conns@) =~= kept_upto(before, model, cache, n));
            lemma_kept(before, model, cache, n);
        }
    }
}

fn listing_holds(listed: &Vec<Listed>, key: &str) -> (b: bool)
    ensures
        b == is_seen(listed_view(listed@), key@),
{
    let ghost all = listed_view(listed@);
    let mut i: usize = 0;
    while i < listed.len()
        invariant
            i <= listed.len(),
            all == listed_view(listed@),
            forall|k: int| 0 <= k < i ==> (#[trigger] all[k]).key != key@,
        decreases listed.len() - i,
    {
        assert(all[i as int] == listed@[i as int]@);
        if text_eq(listed[i].key.as_str(), key) {
            return true;
        }
        i = i + 1;
    }
    false
}

proof fn lemma_take_well_formed(conns: Seq<ConnView>, l: ListedView, now: u64)
    requires
        well_formed(conns),
    ensures
        ({
            let p = position(conns, l.key, 0);
            if p < conns.len() {
                conns[p].polled(l).speed_up.bits < rate::INFINITY_BITS && conns[p].polled(
                    l,
                ).speed_down.bits < rate::INFINITY_BITS ==> well_formed(
                    conns.update(p, conns[p].polled(l)),
                )
            } else {
                well_formed(conns.push(ConnView::opened(l, now)))
            }
        }),
{
    let p = position(conns, l.key, 0);
    lemma_position(conns, l.key, 0);
    let after = if p < conns.len() {
        conns.update(p, conns[p].polled(l))
    } else {
        conns.push(ConnView::opened(l, now))
    };
    assert forall|i: int, j: int| 0 <= i < j < after.len() implies (#[trigger] after[i]).key != (
    #[trigger] after[j]).key by {
        if j < conns.len() {
            assert(conns[i].key != conns[j].key);
        } else {
            assert(conns[i].key != l.key);
        }
    }
    assert forall|i: int| 0 <= i < conns.len() && i != p implies (
    #[trigger] after[i]).speed_up.bits < rate::INFINITY_BITS && after[i].speed_down.bits
        < rate::INFINITY_BITS by {
        assert(conns[i].speed_up.bits < rate::INFINITY_BITS);
    }
}

proof fn lemma_kept(
    conns: Seq<ConnView>,
    listed: Seq<ListedView>,
    cache: Map<Seq<char>, String>,
    n: int,
)
    requires
        well_formed(conns),
        0 <= n <= conns.len(),
    ensures
        well_formed(kept_upto(conns, listed, cache, n)),
        forall|k: int|
            0 <= k < kept_upto(conns, listed, cache, n).len() ==> exists|i: int|
                0 <= i < n && (#[trigger] kept_upto(conns, listed, cache, n)[k]).key == (
                #[trigger] conns[i]).key,
    decreases n,
{
    if n > 0 {
        lemma_kept(conns, listed, cache, n - 1);
        let before = kept_upto(conns, listed, cache, n - 1);
        let after = kept_upto(conns, listed, cache, n);
        assert forall|k: int| 0 <= k < after.len() implies exists|i: int|
            0 <= i < n && (#[trigger] after[k]).key == (#[trigger] conns[i]).key by {
            if k < before.len() {
                let i = choose|i: int| 0 <= i < n - 1 && before[k].key == (#[trigger] conns[i]).key;
                assert(after[k].key == conns[i].key);
            } else {
                assert(after[k].key == conns[n - 1].key);
            }
        }
        assert forall|i: int, j: int| 0 <= i < j < after.len() implies (
        #[trigger] after[i]).key != (#[trigger] after[j]).key by {
            if j < before.len() {
                assert(before[i].key != before[j].key);
            } else {
                let k = choose|k: int| 0 <= k < n - 1 && before[i].key == (#[trigger] conns[k]).key;
                assert(conns[k].key != conns[n - 1].key);
            }
        }
        assert forall|i: int| 0 <= i < after.len() implies (
        #[trigger] after[i]).speed_up.bits < rate::INFINITY_BITS && after[i].speed_down.bits
            < rate::INFINITY_BITS by {
            if i < before.len() {
                assert(before[i].speed_up.bits < rate::INFINITY_BITS);
            } else {
                assert(conns[n - 1].speed_up.bits < rate::INFINITY_BITS);
            }
        }
    }
}

// -- Sorting ------------------------------------------------------------------

/// An octet of an address, as far as sorting goes.
pub open spec fn octet(piece: Seq<char>) -> Option<nat> {
    text::unsigned(piece, u8::MAX as nat)
}

/// An endpoint that is sorted by its address: exactly four pieces between dots,
/// each of them an octet.
pub open spec fn sortable(remote: Seq<char>) -> bool {
    let p = text::pieces(host_of(remote), '.');
    p.len() == 4 && octet(p[0]) is Some && octet(p[1]) is Some && octet(p[2]) is Some && octet(
        p[3],
    ) is Some
}

/// The number by which an endpoint is sorted: its four octets read as one
/// number, and 0 for what is no such address.
pub open spec fn sort_key(remote: Seq<char>) -> u32 {
    let p = text::pieces(host_of(remote), '.');
    if sortable(remote) {
        addr::from_octets(
            octet(p[0]).unwrap() as int,
            octet(p[1]).unwrap() as int,
            octet(p[2]).unwrap() as int,
            octet(p[3]).unwrap() as int,
        ) as u32
    } else {
        0
    }
}

/// Convert an `ip:port` text into a number for sorting by address. Garbage sorts
/// as 0.
pub fn parse_ip_sort_key(remote: &str) -> (out: u32)
    ensures
        out == sort_key(remote@),
{
    let pieces = split_char(&to_chars(host(remote).as_str()), '.');
    let ghost model = text::pieces(host_of(remote@), '.');
    assert(model.len() == pieces.len());
    if pieces.len() != 4 {
        return 0;
    }
    assert(forall|k: int| 0 <= k < 4 ==> model[k] == (#[trigger] pieces@[k])@);
    let max: u64 = u8::MAX as u64;
    match (
        read_unsigned(&pieces[0], max),
        read_unsigned(&pieces[1], max),
        read_unsigned(&pieces[2], max),
        read_unsigned(&pieces[3], max),
    ) {
        (Some(a), Some(b), Some(c), Some(d)) => (((a as u32) * 256 + (b as u32)) * 256 + (
        c as u32)) * 256 + (d as u32),
        _ => 0,
    }
}

/// How many of the first `n` texts come before a text in dictionary order.
pub open spec fn smaller_upto(texts: Seq<Seq<char>>, t: Seq<char>, n: int) -> nat
    decreases n,
{
    if n <= 0 {
        0
    } else {
        smaller_upto(texts, t, n - 1) + if text::at_most(t, texts[n - 1]) {
            0nat
        } else {
            1nat
        }
    }
}

/// The operators of the connections in lowercase.
pub open spec fn lower_isps(conns: Seq<ConnView>) -> Seq<Seq<char>> {
    conns.map_values(|c: ConnView| text::lowercased(c.isp))
}

/// The number by which a connection is sorted under a column: addresses,
/// operators and connection times rising, speeds and volumes falling.
pub open spec fn column_key(conns: Seq<ConnView>, column: usize, i: int) -> i128 {
    let c = conns[i];
    if column == 0 {
        sort_key(c.remote) as i128
    } else if column == 1 {
        smaller_upto(lower_isps(conns), text::lowercased(c.isp), conns.len() as int) as i128
    } else if column == 2 {
        (-(c.speed_down.bits as int)) as i128
    } else if column == 3 {
        (-(c.speed_up.bits as int)) as i128
    } else if column == 4 {
        (-(c.bytes_sent as int)) as i128
    } else if column == 5 {
        (-(c.bytes_recv as int)) as i128
    } else if column == 6 {
        c.first_seen as i128
    } else {
        0
    }
}

pub open spec fn column_keys(conns: Seq<ConnView>, column: usize) -> Seq<i128> {
    Seq::new(conns.len(), |i: int| column_key(conns, column, i))
}

/// The connections in the order of a column, equals in the order in which they
/// were first seen.
pub open spec fn sorted(conns: Seq<ConnView>, column: usize) -> Seq<ConnView> {
    order::order_of(column_keys(conns, column)).map_values(|i: usize| conns[i as int])
}

fn lower_isp_texts(conns: &Vec<Conn>) -> (out: Vec<String>)
    ensures
        text::texts(out@) == lower_isps(conns_view(conns@)),
{
    let mut out: Vec<String> = Vec::new();
    let mut i: usize = 0;
    while i < conns.len()
        invariant
            i <= conns.len(),
            out.len() == i,
            forall|k: int| 0 <= k < i ==> (#[trigger] out@[k])@ == text::lowercased(conns@[k].isp@),
        decreases conns.len() - i,
    {
        out.push(conns[i].isp.as_str().to_lowercase());
        i = i + 1;
    }
    assert(text::texts(out@) =~= lower_isps(conns_view(conns@)));
    out
}

fn count_smaller(texts: &Vec<String>, t: &str) -> (out: usize)
    ensures
        out == smaller_upto(text::texts(texts@), t@, texts@.len() as int),
{
    let ghost all = text::texts(texts@);
    let mut count: usize = 0;
    let mut i: usize = 0;
    while i < texts.len()
        invariant
            i <= texts.len(),
            all == text::texts(texts@),
            count <= i,
            count == smaller_upto(all, t@, i as int),
        decreases texts.len() - i,
    {
        assert(all[i as int] == texts@[i as int]@);
        if !text_at_most(t, texts[i].as_str()) {
            count = count + 1;
        }
        i = i + 1;
    }
    count
}

impl App {
    /// All connections sorted by the currently selected column.
    pub fn sorted_conns(&self) -> (out: Vec<Conn>)
        ensures
            conns_view(out@) == sorted(conns_view(self.conns@), self.sort_col),
    {
        let ghost all = conns_view(self.conns@);
        let isps: Vec<String> = if self.sort_col == 1 {
            lower_isp_texts(&self.conns)
        } else {
            Vec::new()
        };
        let mut keys: Vec<i128> = Vec::new();
        let mut i: usize = 0;
        while i < self.conns.len()
            invariant
                i <= self.conns.len(),
                all == conns_view(self.conns@),
                self.sort_col == 1 ==> text::texts(isps@) == lower_isps(all),
                keys.len() == i,
                forall|k: int|
                    0 <= k < i ==> #[trigger] keys@[k] == column_key(all, self.sort_col, k),
            decreases self.conns.len() - i,
        {
            assert(all[i as int] == self.conns@[i as int]@);
            assert(all.len() == self.conns@.len());
            let c = &self.conns[i];
            let key: i128 = match self.sort_col {
                0 => parse_ip_sort_key(c.remote.as_str()) as i128,
                1 => {
                    assert(text::texts(isps@).len() == isps@.len());
                    assert(lower_isps(all).len() == all.len());
                    assert(text::texts(isps@)[i as int] == isps@[i as int]@);
                    count_smaller(&isps, isps[i].as_str()) as i128
                },
                2 => -(c.speed_down.bits as i128),
                3 => -(c.speed_up.bits as i128),
                4 => -(c.bytes_sent as i128),
                5 => -(c.bytes_recv as i128),
                6 => c.first_seen as i128,
                _ => 0,
            };
            keys.push(key);
            i = i + 1;
        }
        assert(keys@ =~= column_keys(all, self.sort_col));
        let order = stable_order(&keys);
        let mut out: Vec<Conn> = Vec::new();
        let mut k: usize = 0;
        while k < order.len()
            invariant
                k <= order.len(),
                all == conns_view(self.conns@),
                all.len() == self.conns@.len(),
                order@.len() == all.len(),
                forall|j: int| 0 <= j < order@.len() ==> (#[trigger] order@[j]) < all.len(),
                out.len() == k,
                forall|j: int| 0 <= j < k ==> (#[trigger] out@[j])@ == all[order@[j] as int],
            decreases order.len() - k,
        {
            assert(all[order@[k as int] as int] == self.conns@[order@[k as int] as int]@);
            out.push(self.conns[order[k]].copy());
            k = k + 1;
        }
        assert(conns_view(out@) =~= sorted(all, self.sort_col));
        out
    }

    /// Sort by the next column.
    pub fn next_column(&mut self)
        ensures
            final(self).conns == old(self).conns,
            final(self).isp_cache == old(self).isp_cache,
            final(self).pending_lookups == old(self).pending_lookups,
            final(self).sort_col == column_after(old(self).sort_col),
    {
        self.sort_col = (self.sort_col % COL_COUNT + 1) % COL_COUNT;
    }
}

/// The column behind another, and the first behind the last.
pub open spec fn column_after(column: usize) -> int {
    (column as int + 1) % COL_COUNT as int
}

// -- Formatting ---------------------------------------------------------------

/// A byte count for a narrow table column.
pub open spec fn bytes_text(n: nat) -> Seq<char> {
    if n < 1024 {
        text::dec(n) + "B"@
    } else if n < 1_048_576 {
        alert::one_decimal(n, 1024) + "K"@
    } else if n < 1_073_741_824 {
        alert::one_decimal(n, 1_048_576) + "M"@
    } else {
        alert::one_decimal(n, 1_073_741_824) + "G"@
    }
}

pub fn fmt_bytes(n: u64) -> (out: String)
    ensures
        out@ == bytes_text(n as nat),
{
    let mut out: String = String::new();
    if n < 1024 {
        push_dec(&mut out, n);
        out.append("B");
    } else if n < 1_048_576 {
        push_one_decimal(&mut out, n, 1024);
        out.append("K");
    } else if n < 1_073_741_824 {
        push_one_decimal(&mut out, n, 1_048_576);
        out.append("M");
    } else {
        push_one_decimal(&mut out, n, 1_073_741_824);
        out.append("G");
    }
    assert(out@ =~= bytes_text(n as nat));
    out
}

/// A time of day for a narrow table column, e.g. 00:53:29.
pub open spec fn clock_text(at: Option<Civil>) -> Seq<char> {
    match at {
        None => "??:??:??"@,
        Some(t) => alert::padded(t.hour as int, 2) + ":"@ + alert::padded(t.minute as int, 2) + ":"@ + alert::padded(
            t.second as int,
            2,
        ),
    }
}

pub fn fmt_time(at: Option<Civil>) -> (out: String)
    ensures
        out@ == clock_text(at),
{
    let mut out: String = String::new();
    match at {
        None => {
            out.append("??:??:??");
        },
        Some(t) => {
            push_padded(&mut out, t.hour as i64, 2);
            out.append(":");
            push_padded(&mut out, t.minute as i64, 2);
            out.append(":");
            push_padded(&mut out, t.second as i64, 2);
        },
    }
    assert(out@ =~= clock_text(at));
    out
}

/// The pattern of 1048576 as a double.
pub const MEBI_BITS: u64 = 0x4130_0000_0000_0000;

/// The pattern of 1024 as a double.
pub const KIBI_BITS: u64 = 0x4090_0000_0000_0000;

/// The colour of a row: blue for a connection that is not established, else by
/// the faster of its two speeds.
pub open spec fn color_of(c: ConnView) -> Seq<char> {
    if c.state != "ESTAB"@ {
        "blue"@
    } else if c.speed_down.bits > MEBI_BITS || c.speed_up.bits > MEBI_BITS {
        "red"@
    } else if c.speed_down.bits > KIBI_BITS || c.speed_up.bits > KIBI_BITS {
        "yellow"@
    } else {
        "white"@
    }
}

/// Choose a row colour by connection state and speed.
pub fn row_color(c: &Conn) -> (out: &'static str)
    ensures
        out@ == color_of(c@),
{
    if !text_eq(c.state.as_str(), "ESTAB") {
        "blue"
    } else if c.speed_down.bits > MEBI_BITS || c.speed_up.bits > MEBI_BITS {
        "red"
    } else if c.speed_down.bits > KIBI_BITS || c.speed_up.bits > KIBI_BITS {
        "yellow"
    } else {
        "white"
    }
}

// -- Laws ---------------------------------------------------------------------

/// Sorting loses no connection and shows none twice.
pub proof fn sorting_shows_every_connection_once(conns: Seq<ConnView>, column: usize)
    requires
        conns.len() <= usize::MAX,
    ensures
        sorted(conns, column).len() == conns.len(),
        order::in_order(
            column_keys(conns, column),
            order::order_of(column_keys(conns, column)),
            conns.len() as int,
        ),
        order::order_of(column_keys(conns, column)).no_duplicates(),
{
    order::an_order_ranks_every_position_once(column_keys(conns, column));
}

proof fn lemma_smaller_bound(texts: Seq<Seq<char>>, t: Seq<char>, n: int)
    requires
        0 <= n,
    ensures
        smaller_upto(texts, t, n) <= n,
    decreases n,
{
    if n > 0 {
        lemma_smaller_bound(texts, t, n - 1);
    }
}

/// Where one text comes strictly before another, fewer texts come before it; by
/// one more still, where it is itself among them.
proof fn lemma_smaller_ranks(
    texts: Seq<Seq<char>>,
    low: Seq<char>,
    high: Seq<char>,
    at: int,
    n: int,
)
    requires
        0 <= n <= texts.len(),
        0 <= at < texts.len(),
        texts[at] == low,
        !text::at_most(high, low),
    ensures
        smaller_upto(texts, low, n) + if at < n {
            1int
        } else {
            0int
        } <= smaller_upto(texts, high, n),
    decreases n,
{
    if n > 0 {
        lemma_smaller_ranks(texts, low, high, at, n - 1);
        let t = texts[n - 1];
        text::lemma_at_most_total(low, high, 0);
        text::lemma_at_most_total(low, low, 0);
        if !text::at_most(low, t) && text::at_most(high, t) {
            text::lemma_at_most_transitive(low, high, t, 0);
        }
    }
}

/// Sorting follows the column: addresses, operators and connection times rise
/// from one row to a later one, speeds and volumes fall.
pub proof fn sorting_follows_the_column(conns: Seq<ConnView>, column: usize, i: int, j: int)
    requires
        conns.len() <= usize::MAX,
        0 <= i < j < conns.len(),
    ensures
        ({
            let a = sorted(conns, column)[i];
            let b = sorted(conns, column)[j];
            &&& column == 0 ==> sort_key(a.remote) <= sort_key(b.remote)
            &&& column == 1 ==> text::at_most(text::lowercased(a.isp), text::lowercased(b.isp))
            &&& column == 2 ==> a.speed_down.bits >= b.speed_down.bits
            &&& column == 3 ==> a.speed_up.bits >= b.speed_up.bits
            &&& column == 4 ==> a.bytes_sent >= b.bytes_sent
            &&& column == 5 ==> a.bytes_recv >= b.bytes_recv
            &&& column == 6 ==> a.first_seen <= b.first_seen
        }),
{
    let keys = column_keys(conns, column);
    let order = order::order_of(keys);
    order::an_order_ranks_every_position_once(keys);
    assert(order::comes_before(keys, order[i], order[j]));
    let p = order[i] as int;
    let q = order[j] as int;
    assert(keys[p] <= keys[q]);
    if column == 1 {
        let all = lower_isps(conns);
        let low = text::lowercased(conns[q].isp);
        let high = text::lowercased(conns[p].isp);
        lemma_smaller_bound(all, low, conns.len() as int);
        lemma_smaller_bound(all, high, conns.len() as int);
        if !text::at_most(high, low) {
            assert(all[q] == low);
            lemma_smaller_ranks(all, low, high, q, conns.len() as int);
        }
    }
}

proof fn lemma_no_colon_before(s: Seq<char>, n: int)
    requires
        0 <= n <= s.len(),
        forall|k: int| 0 <= k < n ==> s[k] != ':',
    ensures
        text::last_index(s, ':', n) < 0,
    decreases n,
{
    if n > 0 {
        lemma_no_colon_before(s, n - 1);
    }
}

proof fn lemma_last_colon(s: Seq<char>, at: int, n: int)
    requires
        0 <= at < n <= s.len(),
        s[at] == ':',
        forall|k: int| at < k < n ==> s[k] != ':',
    ensures
        text::last_index(s, ':', n) == at,
    decreases n,
{
    if n - 1 > at {
        lemma_last_colon(s, at, n - 1);
    }
}

proof fn lemma_address_sorts(n: u32)
    ensures
        ({
            let p = text::pieces(addr::v4_text(n), '.');
            &&& p.len() == 4
            &&& octet(p[0]) == Some((n / 0x100_0000) as nat)
            &&& octet(p[1]) == Some((n / 0x1_0000 % 0x100) as nat)
            &&& octet(p[2]) == Some((n / 0x100 % 0x100) as nat)
            &&& octet(p[3]) == Some((n % 0x100) as nat)
        }),
{
    addr::an_address_splits_into_octets(n);
    text::a_number_reads_back((n / 0x100_0000) as nat);
    text::a_number_reads_back((n / 0x1_0000 % 0x100) as nat);
    text::a_number_reads_back((n / 0x100 % 0x100) as nat);
    text::a_number_reads_back((n % 0x100) as nat);
}

/// Endpoints sort by their addresses as numbers, not as texts, and the port
/// makes no difference.
pub proof fn endpoints_sort_by_address(n: u32, port: Seq<char>)
    requires
        !port.contains(':'),
    ensures
        sort_key(addr::v4_text(n)) == n,
        sort_key(addr::v4_text(n) + ":"@ + port) == n,
{
    let ip = addr::v4_text(n);
    let whole = ip + ":"@ + port;
    reveal_strlit(":");
    addr::an_address_splits_into_octets(n);
    lemma_address_sorts(n);
    assert forall|k: int| 0 <= k < ip.len() implies ip[k] != ':' by {
        if ip[k] == ':' {
            assert(ip.contains(':'));
        }
    }
    lemma_no_colon_before(ip, ip.len() as int);
    assert(host_of(ip) == ip);
    assert forall|k: int| ip.len() < k < whole.len() implies whole[k] != ':' by {
        assert(whole[k] == port[k - ip.len() - 1]);
        if whole[k] == ':' {
            assert(port.contains(':'));
        }
    }
    assert(whole[ip.len() as int] == ':');
    lemma_last_colon(whole, ip.len() as int, whole.len() as int);
    assert(whole.take(ip.len() as int) =~= ip);
    assert(host_of(whole) == ip);
    assert(addr::from_octets(
        (n / 0x100_0000) as int,
        (n / 0x1_0000 % 0x100) as int,
        (n / 0x100 % 0x100) as int,
        (n % 0x100) as int,
    ) == n);
}

/// What is not four octets with dots between them sorts as 0, whatever it is.
pub proof fn garbage_sorts_as_zero(remote: Seq<char>)
    requires
        !sortable(remote),
    ensures
        sort_key(remote) == 0,
{
}

/// A counter that went backwards does not show as a speed: the speed before is
/// halved, as in a pause.
pub proof fn a_reset_counter_only_fades(before: Rate, last: u64, now: u64)
    requires
        now <= last,
    ensures
        speed_after(before, last, now).bits <= before.bits,
{
}

/// An address is looked up once: one that has been asked for is not wanted
/// again.
pub proof fn an_address_is_looked_up_once(poll: Polling, l: ListedView, now: u64)
    requires
        poll.pending.contains(host_of(l.remote)),
    ensures
        poll.take(l, now).wanted == poll.wanted,
        poll.take(l, now).pending == poll.pending,
{
}

/// The eight states of a connection that the list shows.
pub open spec fn shown_state(state: Seq<char>) -> bool {
    ||| state == seq!['E', 'S', 'T', 'A', 'B']
    ||| state == seq!['S', 'Y', 'N', '-', 'S', 'E', 'N', 'T']
    ||| state == seq!['S', 'Y', 'N', '-', 'R', 'E', 'C', 'V']
    ||| state == seq!['C', 'L', 'O', 'S', 'E', '-', 'W', 'A', 'I', 'T']
    ||| state == seq!['T', 'I', 'M', 'E', '-', 'W', 'A', 'I', 'T']
    ||| state == seq!['F', 'I', 'N', '-', 'W', 'A', 'I', 'T', '1']
    ||| state == seq!['F', 'I', 'N', '-', 'W', 'A', 'I', 'T', '2']
    ||| state == seq!['L', 'A', 'S', 'T', '-', 'A', 'C', 'K']
}

proof fn lemma_shown(state: Seq<char>)
    ensures
        is_shown(state) <==> shown_state(state),
{
    reveal_strlit("ESTAB");
    reveal_strlit("SYN-SENT");
    reveal_strlit("SYN-RECV");
    reveal_strlit("CLOSE-WAIT");
    reveal_strlit("TIME-WAIT");
    reveal_strlit("FIN-WAIT1");
    reveal_strlit("FIN-WAIT2");
    reveal_strlit("LAST-ACK");
    assert("ESTAB"@ =~= seq!['E', 'S', 'T', 'A', 'B']);
    assert("SYN-SENT"@ =~= seq!['S', 'Y', 'N', '-', 'S', 'E', 'N', 'T']);
    assert("SYN-RECV"@ =~= seq!['S', 'Y', 'N', '-', 'R', 'E', 'C', 'V']);
    assert("CLOSE-WAIT"@ =~= seq!['C', 'L', 'O', 'S', 'E', '-', 'W', 'A', 'I', 'T']);
    assert("TIME-WAIT"@ =~= seq!['T', 'I', 'M', 'E', '-', 'W', 'A', 'I', 'T']);
    assert("FIN-WAIT1"@ =~= seq!['F', 'I', 'N', '-', 'W', 'A', 'I', 'T', '1']);
    assert("FIN-WAIT2"@ =~= seq!['F', 'I', 'N', '-', 'W', 'A', 'I', 'T', '2']);
    assert("LAST-ACK"@ =~= seq!['L', 'A', 'S', 'T', '-', 'A', 'C', 'K']);
}

/// A line is listed exactly where it has five words or more and its first word
/// is one of the eight states. It is listed under its fourth word, an arrow and
/// its fifth, with the fifth as the remote end and the first as the state.
pub proof fn a_line_in_one_of_eight_states_is_listed(line: Seq<char>)
    ensures
        ({
            let w = text::words(line);
            let listed = listed_from(seq![line], 0);
            &&& (listed.len() == 1 <==> w.len() >= 5 && (w[0] == "ESTAB"@ || w[0] == "SYN-SENT"@
                || w[0] == "SYN-RECV"@ || w[0] == "CLOSE-WAIT"@ || w[0] == "TIME-WAIT"@ || w[0]
                == "FIN-WAIT1"@ || w[0] == "FIN-WAIT2"@ || w[0] == "LAST-ACK"@))
            &&& (listed.len() == 1 <==> w.len() >= 5 && shown_state(w[0]))
            &&& listed.len() <= 1
            &&& listed.len() == 1 ==> listed[0] == (ListedView {
                key: w[3] + seq!['-', '>'] + w[4],
                remote: w[4],
                state: w[0],
                sent: 0,
                recv: 0,
            })
        }),
{
    let w = text::words(line);
    let lines = seq![line];
    lemma_shown(w[0]);
    reveal_strlit("->");
    assert("->"@ =~= seq!['-', '>']);
    assert(lines[0] == line);
    assert(listed_from(lines, 1) =~= Seq::<ListedView>::empty());
    lemma_nothing_in_nothing();
    if w.len() >= 5 && is_shown(w[0]) {
        assert(info_end(lines, 1) == 1);
        assert(info_text(lines, 1, 1) =~= Seq::<char>::empty());
        assert(listed_from(lines, 0).len() == 1);
    }
}

proof fn lemma_nothing_in_nothing()
    ensures
        field_number(Seq::empty(), "bytes_sent:"@) == 0,
        field_number(Seq::empty(), "bytes_received:"@) == 0,
{
    reveal_strlit("bytes_sent:");
    reveal_strlit("bytes_received:");
    text::a_text_is_found_where_it_stands_first(Seq::empty(), "bytes_sent:"@);
    text::a_text_is_found_where_it_stands_first(Seq::empty(), "bytes_received:"@);
}

/// Lines before and behind a connection's own are listed apart: a line that is
/// shown takes the indented lines behind it, and what follows is listed as if it
/// stood alone.
pub proof fn a_connection_takes_the_indented_lines_behind_it(
    head: Seq<char>,
    info: Seq<char>,
    next: Seq<char>,
)
    requires
        text::words(head).len() >= 5,
        shown_state(text::words(head)[0]),
        info.len() > 0,
        info[0] == '\t' || info[0] == ' ',
        next.len() > 0,
        next[0] != '\t' && next[0] != ' ',
    ensures
        ({
            let w = text::words(head);
            listed_from(seq![head, info, next], 0) == seq![
                ListedView {
                    key: w[3] + seq!['-', '>'] + w[4],
                    remote: w[4],
                    state: w[0],
                    sent: field_number(info + seq![' '], "bytes_sent:"@) as u64,
                    recv: field_number(info + seq![' '], "bytes_received:"@) as u64,
                },
            ] + listed_from(seq![next], 0)
        }),
{
    let lines = seq![head, info, next];
    lemma_shown(text::words(head)[0]);
    reveal_strlit("->");
    assert("->"@ =~= seq!['-', '>']);
    reveal_strlit(" ");
    assert(" "@ =~= seq![' ']);
    reveal_with_fuel(info_end, 3);
    assert(info_end(lines, 1) == 2);
    reveal_with_fuel(info_text, 2);
    assert(info_text(lines, 1, 2) =~= info + seq![' ']);
    assert(info_text(lines, 1, 2) == info + seq![' ']);
    lemma_listed_last(lines, seq![next]);
}

proof fn lemma_listed_last(lines: Seq<Seq<char>>, own: Seq<Seq<char>>)
    requires
        lines.len() == 3,
        own.len() == 1,
        lines[2] == own[0],
    ensures
        listed_from(lines, 2) == listed_from(own, 0),
{
    assert(listed_from(lines, 3) =~= Seq::<ListedView>::empty());
    assert(listed_from(own, 1) =~= Seq::<ListedView>::empty());
    assert(info_end(lines, 3) == 3);
    assert(info_end(own, 1) == 1);
    assert(info_text(lines, 3, 3) =~= Seq::<char>::empty());
    assert(info_text(own, 1, 1) =~= Seq::<char>::empty());
    assert(listed_from(lines, 2) =~= listed_from(own, 0));
}

proof fn lemma_digits_end(s: Seq<char>, i: int, end: int)
    requires
        0 <= i <= end <= s.len(),
        forall|k: int| i <= k < end ==> text::is_digit(#[trigger] s[k]),
        end < s.len() ==> !text::is_digit(s[end]),
    ensures
        leading_digits(s, i) == end,
    decreases end - i,
{
    if i < end {
        assert(text::is_digit(s[i]));
        lemma_digits_end(s, i + 1, end);
    }
}

/// The number of a field stands right behind its name, where the name stands
/// first, and ends with its last digit. Without the name, or a number behind it,
/// it is nought.
pub proof fn a_field_is_the_number_behind_its_name(
    front: Seq<char>,
    field: Seq<char>,
    n: u64,
    rest: Seq<char>,
)
    requires
        field.len() > 0,
        forall|i: int|
            0 <= i < front.len() ==> !(#[trigger] text::stands_at(
                front + field + text::dec(n as nat) + rest,
                field,
                i,
            )),
        rest.len() > 0 ==> !('0' <= rest[0] <= '9'),
    ensures
        field_number(front + field + text::dec(n as nat) + rest, field) == n,
        !text::contains_text(front, field) ==> field_number(front, field) == 0,
{
    let digits = text::dec(n as nat);
    let s = front + field + digits + rest;
    text::a_text_is_found_where_it_stands_first(s, field);
    text::a_text_is_found_where_it_stands_first(front, field);
    let at = front.len() as int;
    assert(s.subrange(at, at + field.len()) =~= field);
    assert(text::stands_at(s, field, at));
    let pos = text::find_from(s, field, 0);
    if pos >= 0 && pos < at {
        assert(text::stands_at(s, field, pos));
    }
    assert(pos == at);
    let tail = s.skip(at + field.len());
    assert(tail =~= digits + rest);
    text::a_number_reads_back(n as nat);
    assert forall|k: int| 0 <= k < digits.len() implies text::is_digit(#[trigger] tail[k]) by {
        assert(tail[k] == digits[k]);
    }
    if digits.len() < tail.len() {
        assert(tail[digits.len() as int] == rest[0]);
    }
    lemma_digits_end(tail, 0, digits.len() as int);
    assert(tail.take(digits.len() as int) =~= digits);
}

/// A speed is what a counter gained since the last look, and half of the speed
/// before where it gained nothing.
pub proof fn a_speed_is_what_a_counter_gained(before: Rate, last: u64, now: u64)
    ensures
        now > last ==> speed_after(before, last, now).bits == rate::double_of(
            (now - last) as nat,
        ) as u64,
        now == last || now < last ==> speed_after(before, last, now).bits == rate::half_of(
            before.bits as nat,
        ) as u64,
{
}

/// A connection is entered as it was listed, at rest, with its first sight. From
/// then on each listing sets its state and its counters and takes each speed from
/// its own counter; its first sight and its remote end stay.
pub proof fn a_connection_is_followed_by_its_counters(c: ConnView, l: ListedView, now: u64)
    ensures
        ConnView::opened(l, now).key == l.key,
        ConnView::opened(l, now).remote == l.remote,
        ConnView::opened(l, now).state == l.state,
        ConnView::opened(l, now).bytes_sent == l.sent,
        ConnView::opened(l, now).bytes_recv == l.recv,
        ConnView::opened(l, now).speed_up.bits == 0,
        ConnView::opened(l, now).speed_down.bits == 0,
        ConnView::opened(l, now).first_seen == now,
        ConnView::opened(l, now).isp == "..."@,
        c.polled(l).key == c.key,
        c.polled(l).remote == c.remote,
        c.polled(l).isp == c.isp,
        c.polled(l).first_seen == c.first_seen,
        c.polled(l).state == l.state,
        c.polled(l).bytes_sent == l.sent,
        c.polled(l).bytes_recv == l.recv,
        l.sent > c.bytes_sent ==> c.polled(l).speed_up.bits == rate::double_of(
            (l.sent - c.bytes_sent) as nat,
        ) as u64,
        l.sent <= c.bytes_sent ==> c.polled(l).speed_up.bits == rate::half_of(
            c.speed_up.bits as nat,
        ) as u64,
        l.recv > c.bytes_recv ==> c.polled(l).speed_down.bits == rate::double_of(
            (l.recv - c.bytes_recv) as nat,
        ) as u64,
        l.recv <= c.bytes_recv ==> c.polled(l).speed_down.bits == rate::half_of(
            c.speed_down.bits as nat,
        ) as u64,
{
}

/// The provider of a connection is filled in from the cache once, under the
/// remote address, and only where it was still open.
pub proof fn a_provider_is_filled_in_where_it_was_open(
    c: ConnView,
    cache: Map<Seq<char>, String>,
    ip: Seq<char>,
    port: Seq<char>,
)
    requires
        !port.contains(':'),
        c.remote == ip + seq![':'] + port,
    ensures
        host_of(c.remote) == ip,
        c.isp == "..."@ && cache.dom().contains(ip) ==> c.with_isp(cache).isp == cache[ip]@,
        c.isp != "..."@ || !cache.dom().contains(ip) ==> c.with_isp(cache) == c,
        c.with_isp(cache).key == c.key && c.with_isp(cache).remote == c.remote && c.with_isp(
            cache,
        ).state == c.state && c.with_isp(cache).bytes_sent == c.bytes_sent && c.with_isp(
            cache,
        ).bytes_recv == c.bytes_recv && c.with_isp(cache).speed_up == c.speed_up && c.with_isp(
            cache,
        ).speed_down == c.speed_down && c.with_isp(cache).first_seen == c.first_seen,
{
    text::a_split_from_the_right_gives_both_sides(ip, ':', port);
}

/// A remote end without a port is its own address.
pub proof fn a_remote_end_without_a_port_is_its_address(remote: Seq<char>)
    requires
        !remote.contains(':'),
    ensures
        host_of(remote) == remote,
{
    text::a_cut_from_the_right_is_at_the_last_separator(remote, ':');
    if text::rsplit_once(remote, ':') is Some {
        let (h, t) = text::rsplit_once(remote, ':').unwrap();
        assert(remote[h.len() as int] == ':');
    }
}

/// A listing either continues the one connection that has its key or opens a new
/// one at the end; it never drops or reorders any.
pub proof fn a_listing_continues_or_opens_one_connection(poll: Polling, l: ListedView, now: u64)
    ensures
        ({
            let after = poll.take(l, now);
            &&& after.conns.len() >= poll.conns.len()
            &&& (exists|i: int| 0 <= i < poll.conns.len() && (#[trigger] poll.conns[i]).key
                == l.key) <==> after.conns.len() == poll.conns.len()
            &&& after.conns.len() > poll.conns.len() ==> after.conns == poll.conns.push(
                ConnView::opened(l, now),
            )
            &&& forall|i: int|
                0 <= i < poll.conns.len() && poll.conns[i].key != l.key
                    ==> #[trigger] after.conns[i] == poll.conns[i]
            &&& forall|i: int|
                0 <= i < poll.conns.len() && poll.conns[i].key == l.key && (forall|k: int|
                    0 <= k < i ==> (#[trigger] poll.conns[k]).key != l.key)
                    ==> #[trigger] after.conns[i] == poll.conns[i].polled(l)
        }),
{
    lemma_first_position(poll.conns, l.key, 0);
    let p = position(poll.conns, l.key, 0);
    if exists|i: int| 0 <= i < poll.conns.len() && (#[trigger] poll.conns[i]).key == l.key {
        let i = choose|i: int| 0 <= i < poll.conns.len() && (#[trigger] poll.conns[i]).key == l.key;
        assert(p <= i);
    }
    if p < poll.conns.len() {
        assert(poll.conns[p].key == l.key);
    }
}

proof fn lemma_first_position(conns: Seq<ConnView>, key: Seq<char>, i: int)
    requires
        0 <= i <= conns.len(),
    ensures
        i <= position(conns, key, i) <= conns.len(),
        position(conns, key, i) < conns.len() ==> conns[position(conns, key, i)].key == key,
        forall|k: int| i <= k < position(conns, key, i) ==> (#[trigger] conns[k]).key != key,
    decreases conns.len() - i,
{
    if i < conns.len() && conns[i].key != key {
        lemma_first_position(conns, key, i + 1);
    }
}

/// A connection is kept exactly where the listing shows it still.
pub proof fn a_connection_is_kept_while_it_is_listed(
    conns: Seq<ConnView>,
    listed: Seq<ListedView>,
    cache: Map<Seq<char>, String>,
    n: int,
)
    requires
        0 <= n < conns.len(),
    ensures
        kept_upto(conns, listed, cache, 0).len() == 0,
        (exists|i: int| 0 <= i < listed.len() && (#[trigger] listed[i]).key == conns[n].key)
            ==> kept_upto(conns, listed, cache, n + 1) == kept_upto(conns, listed, cache, n).push(
            conns[n].with_isp(cache),
        ),
        (forall|i: int| 0 <= i < listed.len() ==> (#[trigger] listed[i]).key != conns[n].key)
            ==> kept_upto(conns, listed, cache, n + 1) == kept_upto(conns, listed, cache, n),
{
}

/// The colour of a row: blue outside an established connection, red above a
/// mebibyte a second either way, yellow above a kibibyte, and white below.
pub proof fn a_colour_goes_by_the_faster_direction(c: ConnView)
    ensures
        MEBI_BITS == 0x4130_0000_0000_0000 && KIBI_BITS == 0x4090_0000_0000_0000,
        c.state != "ESTAB"@ ==> color_of(c) == "blue"@,
        c.state == "ESTAB"@ && (c.speed_down.bits > 0x4130_0000_0000_0000 || c.speed_up.bits
            > 0x4130_0000_0000_0000) ==> color_of(c) == "red"@,
        c.state == "ESTAB"@ && c.speed_down.bits <= 0x4130_0000_0000_0000 && c.speed_up.bits
            <= 0x4130_0000_0000_0000 && (c.speed_down.bits > 0x4090_0000_0000_0000
            || c.speed_up.bits > 0x4090_0000_0000_0000) ==> color_of(c) == "yellow"@,
        c.state == "ESTAB"@ && c.speed_down.bits <= 0x4090_0000_0000_0000 && c.speed_up.bits
            <= 0x4090_0000_0000_0000 ==> color_of(c) == "white"@,
{
}

/// A count of bytes is written in bytes below a kibibyte, and with one decimal in
/// kibibytes, mebibytes and gibibytes from there.
pub proof fn a_count_of_bytes_is_written_in_its_unit(n: nat)
    ensures
        n < 1024 ==> bytes_text(n) == text::dec(n) + seq!['B'],
        1024 <= n < 1024 * 1024 ==> bytes_text(n) == alert::one_decimal(n, 1024) + seq!['K'],
        1024 * 1024 <= n < 1024 * 1024 * 1024 ==> bytes_text(n) == alert::one_decimal(
            n,
            1024 * 1024,
        ) + seq!['M'],
        n >= 1024 * 1024 * 1024 ==> bytes_text(n) == alert::one_decimal(n, 1024 * 1024 * 1024)
            + seq!['G'],
{
    reveal_strlit("B");
    reveal_strlit("K");
    reveal_strlit("M");
    reveal_strlit("G");
    assert("B"@ =~= seq!['B'] && "K"@ =~= seq!['K'] && "M"@ =~= seq!['M'] && "G"@ =~= seq!['G']);
}

/// A time of day is written as hours, minutes and seconds, two digits each, with
/// colons between them.
pub proof fn a_time_of_day_is_three_pairs_of_digits(t: Civil)
    ensures
        clock_text(Some(t)) == alert::padded(t.hour as int, 2) + seq![':'] + alert::padded(
            t.minute as int,
            2,
        ) + seq![':'] + alert::padded(t.second as int, 2),
        clock_text(None) == "??:??:??"@,
{
    reveal_strlit(":");
    assert(":"@ =~= seq![':']);
}

proof fn lemma_listed_from(lines: Seq<Seq<char>>, i: int, k: int)
    requires
        0 <= i <= k < lines.len(),
        text::words(lines[k]).len() >= 5,
        shown_state(text::words(lines[k])[0]),
        lines[k].len() == 0 || (lines[k][0] != '\t' && lines[k][0] != ' '),
    ensures
        exists|j: int|
            0 <= j < listed_from(lines, i).len() && (#[trigger] listed_from(lines, i)[j]).key
                == text::words(lines[k])[3] + "->"@ + text::words(lines[k])[4] && listed_from(
                lines,
                i,
            )[j].state == text::words(lines[k])[0],
    decreases lines.len() - i,
{
    let w = text::words(lines[i]);
    let all = listed_from(lines, i);
    lemma_shown(w[0]);
    if w.len() < 5 || !is_shown(w[0]) {
        lemma_listed_from(lines, i + 1, k);
    } else {
        lemma_info_end(lines, i + 1);
        let end = if i < info_end(lines, i + 1) <= lines.len() {
            info_end(lines, i + 1)
        } else {
            i + 1
        };
        let rest = listed_from(lines, end);
        assert(all.len() == 1 + rest.len());
        if k == i {
            assert(all[0].key == w[3] + "->"@ + w[4] && all[0].state == w[0]);
        } else {
            lemma_info_is_indented(lines, i + 1);
            if k < end {
                assert(indented(lines[k]));
            }
            lemma_listed_from(lines, end, k);
            let j = choose|j: int|
                0 <= j < rest.len() && (#[trigger] rest[j]).key == text::words(lines[k])[3] + "->"@
                    + text::words(lines[k])[4] && rest[j].state == text::words(lines[k])[0];
            assert(all[j + 1] == rest[j]);
        }
    }
}

proof fn lemma_info_is_indented(lines: Seq<Seq<char>>, i: int)
    ensures
        forall|k: int| i <= k < info_end(lines, i) ==> indented(#[trigger] lines[k]),
    decreases lines.len() - i,
{
    if 0 <= i < lines.len() && indented(lines[i]) {
        lemma_info_is_indented(lines, i + 1);
    }
}

/// Wherever in the output it stands, a line that is not indented, has five words
/// or more and begins with one of the eight states is listed.
pub proof fn every_line_in_one_of_eight_states_is_listed(lines: Seq<Seq<char>>, k: int)
    requires
        0 <= k < lines.len(),
        text::words(lines[k]).len() >= 5,
        shown_state(text::words(lines[k])[0]),
        lines[k].len() == 0 || (lines[k][0] != '\t' && lines[k][0] != ' '),
    ensures
        exists|j: int|
            0 <= j < listed_from(lines, 0).len() && (#[trigger] listed_from(lines, 0)[j]).key
                == text::words(lines[k])[3] + "->"@ + text::words(lines[k])[4] && listed_from(
                lines,
                0,
            )[j].state == text::words(lines[k])[0],
{
    lemma_listed_from(lines, 0, k);
}

proof fn lemma_all_listed_are_shown(lines: Seq<Seq<char>>, i: int, j: int)
    requires
        0 <= i <= lines.len(),
        0 <= j < listed_from(lines, i).len(),
    ensures
        shown_state(listed_from(lines, i)[j].state),
        exists|k: int|
            i <= k < lines.len() && text::words(#[trigger] lines[k]).len() >= 5 && listed_from(
                lines,
                i,
            )[j].key == text::words(lines[k])[3] + "->"@ + text::words(lines[k])[4]
                && listed_from(lines, i)[j].remote == text::words(lines[k])[4] && listed_from(
                lines,
                i,
            )[j].state == text::words(lines[k])[0],
    decreases lines.len() - i,
{
    if i < lines.len() {
        let w = text::words(lines[i]);
        let all = listed_from(lines, i);
        lemma_shown(w[0]);
        if w.len() < 5 || !is_shown(w[0]) {
            lemma_all_listed_are_shown(lines, i + 1, j);
        } else {
            lemma_info_end(lines, i + 1);
            let end = if i < info_end(lines, i + 1) <= lines.len() {
                info_end(lines, i + 1)
            } else {
                i + 1
            };
            let rest = listed_from(lines, end);
            assert(all.len() == 1 + rest.len());
            if j == 0 {
                assert(text::words(lines[i]).len() >= 5);
            } else {
                assert(all[j] == rest[j - 1]);
                lemma_all_listed_are_shown(lines, end, j - 1);
                let k = choose|k: int|
                    end <= k < lines.len() && text::words(#[trigger] lines[k]).len() >= 5
                        && rest[j - 1].key == text::words(lines[k])[3] + "->"@ + text::words(
                        lines[k],
                    )[4] && rest[j - 1].remote == text::words(lines[k])[4] && rest[j - 1].state
                        == text::words(lines[k])[0];
                assert(text::words(lines[k]).len() >= 5);
            }
        }
    }
}

/// Nothing else is listed: each entry stands for a line of five words or more in
/// one of the eight states.
pub proof fn only_lines_in_one_of_eight_states_are_listed(lines: Seq<Seq<char>>, j: int)
    requires
        0 <= j < listed_from(lines, 0).len(),
    ensures
        shown_state(listed_from(lines, 0)[j].state),
        exists|k: int|
            0 <= k < lines.len() && text::words(#[trigger] lines[k]).len() >= 5 && listed_from(
                lines,
                0,
            )[j].key == text::words(lines[k])[3] + "->"@ + text::words(lines[k])[4]
                && listed_from(lines, 0)[j].remote == text::words(lines[k])[4] && listed_from(
                lines,
                0,
            )[j].state == text::words(lines[k])[0],
{
    lemma_all_listed_are_shown(lines, 0, j);
}

/// There are seven columns, and behind the last comes the first.
pub proof fn behind_the_last_column_comes_the_first(column: usize)
    ensures
        column < 6 ==> column_after(column) == column + 1,
        column == 6 ==> column_after(column) == 0,
        0 <= column_after(column) < 7,
{
}

/// A line is indented where it begins with a tab or a space, and only there.
pub proof fn a_line_is_indented_by_its_first_character(line: Seq<char>)
    ensures
        indented(seq!['\t'] + line),
        indented(seq![' '] + line),
        !indented(Seq::empty()),
        line.len() > 0 && line[0] != '\t' && line[0] != ' ' ==> !indented(line),
{
}

/// Listings are taken in order, one by one.
pub proof fn listings_are_taken_one_by_one(
    poll: Polling,
    listed: Seq<ListedView>,
    now: u64,
    n: int,
)
    requires
        0 <= n < listed.len(),
    ensures
        poll.take_upto(listed, now, 0) == poll,
        poll.take_upto(listed, now, n + 1) == poll.take_upto(listed, now, n).take(listed[n], now),
{
}

/// A poll starts from the connections and the lookups there are, and asks for
/// nothing yet.
pub proof fn a_poll_starts_from_what_there_is(app: App, now: u64)
    ensures
        app.polling(Seq::empty(), now).conns == conns_view(app.conns@),
        app.polling(Seq::empty(), now).pending == text::texts(app.pending_lookups@),
        app.polling(Seq::empty(), now).wanted.len() == 0,
{
}

/// A field without a digit right behind its name is nought.
pub proof fn a_field_without_a_number_is_nought(
    front: Seq<char>,
    field: Seq<char>,
    rest: Seq<char>,
)
    requires
        field.len() > 0,
        forall|i: int|
            0 <= i < front.len() ==> !(#[trigger] text::stands_at(front + field + rest, field, i)),
        rest.len() > 0 ==> !('0' <= rest[0] <= '9'),
    ensures
        field_number(front + field + rest, field) == 0,
{
    let s = front + field + rest;
    text::a_text_is_found_where_it_stands_first(s, field);
    let at = front.len() as int;
    assert(s.subrange(at, at + field.len()) =~= field);
    assert(text::stands_at(s, field, at));
    let pos = text::find_from(s, field, 0);
    if pos >= 0 && pos < at {
        assert(text::stands_at(s, field, pos));
    }
    let tail = s.skip(at + field.len());
    assert(tail =~= rest);
    assert(leading_digits(tail, 0) == 0);
    assert(tail.take(0) =~= Seq::<char>::empty());
}

} // verus!
