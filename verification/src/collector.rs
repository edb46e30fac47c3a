//! The snapshot that the privileged half leaves behind.
//!
//! Optional by construction: everything here is None when the collector is not
//! installed, and every caller carries on without it. What the snapshot buys is
//! reachable no other way: byte counts that cover UDP, and exact firewall drop
//! totals.

use vstd::prelude::*;

use crate::text;
use crate::text::{cut_once, spells, read_unsigned, split_lines, to_chars, trimmed};

verus! {

// -- Data structures ----------------------------------------------------------

#[derive(Clone, Copy, Debug, PartialEq, Eq, Structural)]
pub struct Snapshot {
    /// Unix seconds the snapshot was written. Two samples with the same `at` are
    /// the same sample read twice, not a zero-length interval.
    pub at: i64,
    /// Whether byte accounting was on when the sample was taken. With it off the
    /// kernel emits no byte counters at all, so the totals below are not small,
    /// they are absent.
    pub conntrack_acct: bool,
    pub conntrack_flows: u64,
    /// Monotonic: the collector accumulates increments so that this can be
    /// subtracted across expiries.
    pub conntrack_reply_bytes: u64,
    pub input_drop_packets: u64,
    pub input_drop_bytes: u64,
}

/// What a rate is made of: so many bytes in so many seconds.
#[derive(Clone, Copy, Debug, PartialEq, Eq, Structural)]
pub struct Measured {
    pub bytes: u64,
    pub secs: u64,
}

impl Snapshot {
    /// Conntrack was in a position to measure anything at all. Accounting that
    /// is off, or a table without flows, is blind, not quiet.
    pub open spec fn measures(self) -> bool {
        self.conntrack_acct && self.conntrack_flows > 0
    }

    /// What conntrack accounted for since an earlier sample. None where either
    /// end could not measure, where the collector has not refreshed since, and
    /// where its counter went backwards.
    pub open spec fn replies_since(self, prev: Snapshot) -> Option<Measured> {
        if self.measures() && prev.measures() && 0 < self.at - prev.at <= i64::MAX
            && self.conntrack_reply_bytes >= prev.conntrack_reply_bytes {
            Some(
                Measured {
                    bytes: (self.conntrack_reply_bytes - prev.conntrack_reply_bytes) as u64,
                    secs: (self.at - prev.at) as u64,
                },
            )
        } else {
            None
        }
    }

    pub fn measures_bytes(&self) -> (b: bool)
        ensures
            b == self.measures(),
    {
        self.conntrack_acct && self.conntrack_flows > 0
    }

    /// What the rate of inbound traffic that conntrack accounted for between two
    /// samples is made of.
    pub fn reply_bps_since(&self, prev: &Snapshot) -> (out: Option<Measured>)
        ensures
            out == self.replies_since(*prev),
    {
        if !self.measures_bytes() || !prev.measures_bytes() {
            return None;
        }
        let elapsed: i128 = (self.at as i128) - (prev.at as i128);
        if elapsed <= 0 || elapsed > i64::MAX as i128 {
            return None;
        }
        if self.conntrack_reply_bytes < prev.conntrack_reply_bytes {
            return None;
        }
        Some(
            Measured {
                bytes: self.conntrack_reply_bytes - prev.conntrack_reply_bytes,
                secs: elapsed as u64,
            },
        )
    }

    /// What the firewall dropped between two samples.
    pub open spec fn dropped_since(self, prev: Snapshot) -> Option<(u64, u64)> {
        if self.input_drop_packets >= prev.input_drop_packets && self.input_drop_bytes
            >= prev.input_drop_bytes {
            Some(
                (
                    (self.input_drop_packets - prev.input_drop_packets) as u64,
                    (self.input_drop_bytes - prev.input_drop_bytes) as u64,
                ),
            )
        } else {
            None
        }
    }

    /// Firewall drops between two samples, as packets and bytes. None where
    /// either counter went backwards.
    pub fn drops_since(&self, prev: &Snapshot) -> (out: Option<(u64, u64)>)
        ensures
            out == self.dropped_since(*prev),
    {
        if self.input_drop_packets < prev.input_drop_packets || self.input_drop_bytes
            < prev.input_drop_bytes {
            return None;
        }
        Some(
            (
                self.input_drop_packets - prev.input_drop_packets,
                self.input_drop_bytes - prev.input_drop_bytes,
            ),
        )
    }
}

// -- Reading ------------------------------------------------------------------

/// A snapshot read so far, with the time where one has been read.
pub struct Partial {
    pub at: Option<i64>,
    pub rest: Snapshot,
}

impl Partial {
    /// A snapshot of which nothing is known. A collector that says nothing of
    /// accounting is older than the field, and is taken to have it on.
    pub open spec fn blank() -> Partial {
        Partial {
            at: None,
            rest: Snapshot {
                at: 0,
                conntrack_acct: true,
                conntrack_flows: 0,
                conntrack_reply_bytes: 0,
                input_drop_packets: 0,
                input_drop_bytes: 0,
            },
        }
    }

    /// One field, by its name.
    pub open spec fn set(self, key: Seq<char>, n: u64) -> Partial {
        let rest = self.rest;
        if key == "at"@ {
            Partial { at: Some(n as i64), ..self }
        } else if key == "conntrack_acct"@ {
            Partial { rest: Snapshot { conntrack_acct: n != 0, ..rest }, ..self }
        } else if key == "conntrack_flows"@ {
            Partial { rest: Snapshot { conntrack_flows: n, ..rest }, ..self }
        } else if key == "conntrack_reply_bytes"@ {
            Partial { rest: Snapshot { conntrack_reply_bytes: n, ..rest }, ..self }
        } else if key == "input_drop_packets"@ {
            Partial { rest: Snapshot { input_drop_packets: n, ..rest }, ..self }
        } else if key == "input_drop_bytes"@ {
            Partial { rest: Snapshot { input_drop_bytes: n, ..rest }, ..self }
        } else {
            self
        }
    }

    /// One line. What is no `key=number`, or names no known field, is passed
    /// over.
    pub open spec fn take_line(self, line: Seq<char>) -> Partial {
        match text::split_once(line, '=') {
            Some((key, value)) => match text::unsigned(text::trim(value), u64::MAX as nat) {
                Some(n) => self.set(text::trim(key), n as u64),
                None => self,
            },
            None => self,
        }
    }

    pub open spec fn of_lines(lines: Seq<Seq<char>>, n: int) -> Partial
        decreases n,
    {
        if n <= 0 {
            Partial::blank()
        } else {
            Partial::of_lines(lines, n - 1).take_line(lines[n - 1])
        }
    }
}

/// The snapshot that a text holds. Without a timestamp nothing can be compared
/// against anything, so a snapshot missing it is unusable.
pub open spec fn snapshot_in(s: Seq<char>) -> Option<Snapshot> {
    let all = Partial::of_lines(text::lines(s), text::lines(s).len() as int);
    match all.at {
        Some(at) => Some(Snapshot { at, ..all.rest }),
        None => None,
    }
}

/// The snapshot that a text holds, or None when it holds none.
pub fn parse(content: &str) -> (out: Option<Snapshot>)
    ensures
        out == snapshot_in(content@),
{
    let lines = split_lines(&to_chars(content));
    let ghost model = text::lines(content@);
    let mut at: Option<i64> = None;
    let mut rest = Snapshot {
        at: 0,
        conntrack_acct: true,
        conntrack_flows: 0,
        conntrack_reply_bytes: 0,
        input_drop_packets: 0,
        input_drop_bytes: 0,
    };
    let mut i: usize = 0;
    while i < lines.len()
        invariant
            i <= lines.len(),
            model == text::spelled(lines@),
            (Partial { at, rest }) == Partial::of_lines(model, i as int),
        decreases lines.len() - i,
    {
        assert(model[i as int] == lines@[i as int]@);
        match cut_once(&lines[i], '=') {
            Some((key, value)) => {
                match read_unsigned(&trimmed(&value), u64::MAX) {
                    Some(n) => {
                        let key = trimmed(&key);
                        if spells(&key, "at") {
                            at = Some(n as i64);
                        } else if spells(&key, "conntrack_acct") {
                            rest.conntrack_acct = n != 0;
                        } else if spells(&key, "conntrack_flows") {
                            rest.conntrack_flows = n;
                        } else if spells(&key, "conntrack_reply_bytes") {
                            rest.conntrack_reply_bytes = n;
                        } else if spells(&key, "input_drop_packets") {
                            rest.input_drop_packets = n;
                        } else if spells(&key, "input_drop_bytes") {
                            rest.input_drop_bytes = n;
                        }
                    },
                    None => {},
                }
            },
            None => {},
        }
        i = i + 1;
    }
    match at {
        Some(at) => {
            rest.at = at;
            Some(rest)
        },
        None => None,
    }
}

/// The current snapshot, or None when the collector is not installed.
pub fn read(content: Option<&str>) -> (out: Option<Snapshot>)
    ensures
        out == match content {
            Some(t) => snapshot_in(t@),
            None => None,
        },
{
    match content {
        Some(t) => parse(t),
        None => None,
    }
}

// -- Laws ---------------------------------------------------------------------

/// Unmeasured stays unmeasured: where either end of an interval was blind there
/// is no rate, and in particular no rate of zero.
pub proof fn a_blind_sample_yields_no_rate(now: Snapshot, prev: Snapshot)
    requires
        !now.measures() || !prev.measures(),
    ensures
        now.replies_since(prev) is None,
{
}

/// A sample read twice yields no rate, and neither does a counter that went
/// backwards.
pub proof fn rates_need_two_distinct_samples(now: Snapshot, prev: Snapshot)
    requires
        now.at <= prev.at || now.conntrack_reply_bytes < prev.conntrack_reply_bytes,
    ensures
        now.replies_since(prev) is None,
{
}

/// A measured zero is still a measurement: flows tracked, accounting on, nothing
/// consumed.
pub proof fn a_measured_zero_is_still_a_measurement(now: Snapshot, prev: Snapshot)
    requires
        now.measures(),
        prev.measures(),
        0 < now.at - prev.at <= i64::MAX,
        now.conntrack_reply_bytes == prev.conntrack_reply_bytes,
    ensures
        now.replies_since(prev) is Some,
        now.replies_since(prev).unwrap().bytes == 0,
{
}

/// Two snapshots measure what the replies gained and over how many seconds,
/// exactly where both count bytes and track flows, the second is the later, and
/// the count has not fallen.
pub proof fn two_snapshots_measure_what_replies_gained(now: Snapshot, prev: Snapshot)
    ensures
        ({
            let measured = now.conntrack_acct && prev.conntrack_acct && now.conntrack_flows > 0
                && prev.conntrack_flows > 0 && now.at > prev.at && now.at - prev.at
                <= 0x7fff_ffff_ffff_ffff && now.conntrack_reply_bytes >= prev.conntrack_reply_bytes;
            &&& now.replies_since(prev) is Some <==> measured
            &&& measured ==> now.replies_since(prev).unwrap().bytes == now.conntrack_reply_bytes
                - prev.conntrack_reply_bytes && now.replies_since(prev).unwrap().secs == now.at
                - prev.at
        }),
{
}

proof fn lemma_fields_are_told_apart()
    ensures
        "at"@.len() == 2,
        "conntrack_acct"@.len() == 14,
        "conntrack_flows"@.len() == 15,
        "conntrack_reply_bytes"@.len() == 21,
        "input_drop_packets"@.len() == 18,
        "input_drop_bytes"@.len() == 16,
{
    reveal_strlit("at");
    reveal_strlit("conntrack_acct");
    reveal_strlit("conntrack_flows");
    reveal_strlit("conntrack_reply_bytes");
    reveal_strlit("input_drop_packets");
    reveal_strlit("input_drop_bytes");
}

/// A line is a field, an equals sign and a number, with white space anywhere
/// round them. It sets its field and no other.
pub proof fn a_line_sets_its_field(
    before: Partial,
    field: Seq<char>,
    value: Seq<char>,
    n: u64,
)
    requires
        !field.contains('='),
        text::trim(value) == text::dec(n as nat),
    ensures
        ({
            let name = text::trim(field);
            let after = before.take_line(field + seq!['='] + value);
            let rest = before.rest;
            &&& name == "at"@ && n <= 0x7fff_ffff_ffff_ffff ==> after.at == Some(n as i64)
                && after.rest == rest
            &&& name == "at"@ ==> after.at is Some && after.rest == rest
            &&& name != "at"@ ==> after.at == before.at
            &&& name == "conntrack_acct"@ ==> after.rest == (Snapshot {
                conntrack_acct: n > 0,
                ..rest
            })
            &&& name == "conntrack_flows"@ ==> after.rest == (Snapshot {
                conntrack_flows: n,
                ..rest
            })
            &&& name == "conntrack_reply_bytes"@ ==> after.rest == (Snapshot {
                conntrack_reply_bytes: n,
                ..rest
            })
            &&& name == "input_drop_packets"@ ==> after.rest == (Snapshot {
                input_drop_packets: n,
                ..rest
            })
            &&& name == "input_drop_bytes"@ ==> after.rest == (Snapshot {
                input_drop_bytes: n,
                ..rest
            })
            &&& name != "at"@ && name != "conntrack_acct"@ && name != "conntrack_flows"@ && name
                != "conntrack_reply_bytes"@ && name != "input_drop_packets"@ && name
                != "input_drop_bytes"@ ==> after == before
        }),
{
    text::a_split_gives_both_sides(field, '=', value);
    text::a_number_reads_back(n as nat);
    lemma_fields_are_told_apart();
}

/// A line without an equals sign, or without a number behind it, sets nothing.
pub proof fn a_line_without_a_number_sets_nothing(
    before: Partial,
    field: Seq<char>,
    value: Seq<char>,
)
    requires
        !field.contains('='),
        text::unsigned(text::trim(value), u64::MAX as nat) is None,
    ensures
        before.take_line(field) == before,
        before.take_line(field + seq!['='] + value) == before,
{
    text::a_split_gives_both_sides(field, '=', value);
    text::a_cut_is_at_the_first_separator(field, '=');
    if text::split_once(field, '=') is Some {
        let (h, t) = text::split_once(field, '=').unwrap();
        assert(field[h.len() as int] == '=');
    }
}

/// Lines are taken in order. Without any the counters are nought and accounting
/// is taken to be on; without a time there is no snapshot.
pub proof fn a_snapshot_needs_its_time(s: Seq<char>, lines: Seq<Seq<char>>, n: int)
    requires
        0 <= n,
    ensures
        Partial::of_lines(lines, 0).at is None,
        Partial::of_lines(lines, 0).rest.conntrack_acct,
        Partial::of_lines(lines, 0).rest.conntrack_flows == 0,
        Partial::of_lines(lines, 0).rest.conntrack_reply_bytes == 0,
        Partial::of_lines(lines, 0).rest.input_drop_packets == 0,
        Partial::of_lines(lines, 0).rest.input_drop_bytes == 0,
        Partial::of_lines(lines, n + 1) == Partial::of_lines(lines, n).take_line(lines[n]),
        ({
            let all = Partial::of_lines(text::lines(s), text::lines(s).len() as int);
            &&& snapshot_in(s) is Some <==> all.at is Some
            &&& all.at is Some ==> snapshot_in(s).unwrap().at == all.at.unwrap() && snapshot_in(
                s,
            ).unwrap() == (Snapshot { at: all.at.unwrap(), ..all.rest })
        }),
{
}

/// Drops are what both counters rose by, and unknown where either fell.
pub proof fn drops_are_what_both_counters_rose_by(now: Snapshot, prev: Snapshot)
    ensures
        now.input_drop_packets < prev.input_drop_packets ==> now.dropped_since(prev) is None,
        now.input_drop_bytes < prev.input_drop_bytes ==> now.dropped_since(prev) is None,
        now.input_drop_packets >= prev.input_drop_packets && now.input_drop_bytes
            >= prev.input_drop_bytes ==> now.dropped_since(prev) is Some
            && prev.input_drop_packets + now.dropped_since(prev).unwrap().0
            == now.input_drop_packets && prev.input_drop_bytes + now.dropped_since(
            prev,
        ).unwrap().1 == now.input_drop_bytes,
{
}

} // verus!
