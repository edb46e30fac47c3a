//! Drop records, as the firewall writes them into the kernel log.
//!
//! One record is one line of `journalctl -o short-iso`: a timestamp, and among
//! the words behind it the packet's fields as `KEY=value`.

use vstd::prelude::*;

use crate::alert::now_epoch;
use crate::text;
use crate::text::{
    copy_range, cut_once, spells, read_signed, read_unsigned, split_words, to_chars, to_text,
};

verus! {

// -- Data structures ----------------------------------------------------------

pub struct BlockEvent {
    pub ts: i64,
    pub iface: String,
    pub src: String,
    pub dst: String,
    pub proto: String,
    pub sport: u16,
    pub dport: u16,
    /// IP total length, i.e. bytes on the wire for this packet.
    pub len: u64,
}

pub struct EventView {
    pub ts: i64,
    pub iface: Seq<char>,
    pub src: Seq<char>,
    pub dst: Seq<char>,
    pub proto: Seq<char>,
    pub sport: u16,
    pub dport: u16,
    pub len: u64,
}

impl View for BlockEvent {
    type V = EventView;

    open spec fn view(&self) -> EventView {
        EventView {
            ts: self.ts,
            iface: self.iface@,
            src: self.src@,
            dst: self.dst@,
            proto: self.proto@,
            sport: self.sport,
            dport: self.dport,
            len: self.len,
        }
    }
}

pub open spec fn events_view(v: Seq<BlockEvent>) -> Seq<EventView> {
    v.map_values(|e: BlockEvent| e@)
}

// -- Timestamps ---------------------------------------------------------------

/// A quotient rounded towards zero.
pub open spec fn quotient(a: int, b: int) -> int {
    if a >= 0 {
        a / b
    } else {
        -((-a) / b)
    }
}

/// The days of a year that begins on the first of March before a month of it.
pub open spec fn days_before(month: int) -> int {
    let shifted = month + 9 - 12 * quotient(month + 9, 12);
    quotient(153 * shifted + 2, 5)
}

/// Days since the Unix epoch for a date of the Gregorian calendar, counted in
/// eras of 400 years that begin on the first of March.
pub open spec fn civil_days(year: int, month: int, day: int) -> int {
    let y = if month <= 2 {
        year - 1
    } else {
        year
    };
    let era = y / 400;
    let year_of_era = y % 400;
    let day_of_year = days_before(month) + day - 1;
    let day_of_era = year_of_era * 365 + year_of_era / 4 - year_of_era / 100 + day_of_year;
    era * 146_097 + day_of_era - 719_468
}

fn quotient_of(a: i128, b: u128) -> (out: i128)
    requires
        0 < b <= 400,
        -0x1_0000_0000_0000_0000 <= a <= 0x1_0000_0000_0000_0000,
    ensures
        out == quotient(a as int, b as int),
        -0x1_0000_0000_0000_0000 <= out <= 0x1_0000_0000_0000_0000,
        a >= 0 ==> 0 <= a - b * out < b,
        a < 0 ==> -b < a - b * out <= 0,
{
    let size: u128 = if a >= 0 {
        a as u128
    } else {
        (-a) as u128
    };
    let q: u128 = size / b;
    proof {
        let rem = size as int - b * q;
        vstd::arithmetic::div_mod::lemma_fundamental_div_mod(size as int, b as int);
        vstd::arithmetic::div_mod::lemma_mod_bound(size as int, b as int);
        assert(q <= size) by (nonlinear_arith)
            requires
                q == size / b,
                b > 0,
        ;
        assert(b * -(q as int) == -(b * q)) by (nonlinear_arith);
        assert(0 <= rem < b);
    }
    if a >= 0 {
        q as i128
    } else {
        -(q as i128)
    }
}

/// Days since the Unix epoch for a civil date.
pub fn days_from_civil(year: i64, month: i64, day: i64) -> (out: i64)
    requires
        i64::MIN <= civil_days(year as int, month as int, day as int) <= i64::MAX,
    ensures
        out == civil_days(year as int, month as int, day as int),
{
    let y: i128 = if month <= 2 {
        year as i128 - 1
    } else {
        year as i128
    };
    // The years are counted from the beginning of an era before all of them.
    let shifted: u128 = (y + 0x1_0000_0000_0000_0000 * 400) as u128;
    let era: i128 = (shifted / 400) as i128 - 0x1_0000_0000_0000_0000;
    let year_of_era: u128 = shifted % 400;
    assert(era == (y as int) / 400 && year_of_era == (y as int) % 400);
    let m: i128 = month as i128 + 9;
    let month_shifted: i128 = m - 12 * quotient_of(m, 12);
    let month_days: i128 = quotient_of(153 * month_shifted + 2, 5);
    let day_of_year: i128 = month_days + day as i128 - 1;
    let year_days: i128 = (year_of_era * 365 + year_of_era / 4 - year_of_era / 100) as i128;
    (era * 146_097 + (year_days + day_of_year) - 719_468) as i64
}

proof fn lemma_civil_days_are_few(year: int, month: int, day: int)
    requires
        -10_000 <= year <= 10_000,
        -9 <= month <= 100,
        -100 <= day <= 100,
    ensures
        -10_000_000 <= civil_days(year, month, day) <= 10_000_000,
{
}

/// The field that stands at positions `a` to `b` of a timestamp.
pub open spec fn digits_at(s: Seq<char>, a: int, b: int) -> Option<int> {
    text::signed(s.subrange(a, b))
}

/// The seconds by which the clock of a zone is ahead of UTC. `rest` is what
/// stands behind the time; where it names no offset there is none, and where
/// the offset cannot be read the result is None.
pub open spec fn zone_seconds(rest: Seq<char>) -> Option<int> {
    let pos = sign_index(rest, 0);
    if pos >= rest.len() {
        Some(0)
    } else {
        let offset = rest.skip(pos + 1);
        if offset.len() < 2 {
            None
        } else {
            match digits_at(offset, 0, 2) {
                None => None,
                Some(hours) => {
                    let minutes: int = if offset.len() >= 5 && text::is_ascii(offset[2]) {
                        match digits_at(offset, 3, 5) {
                            Some(m) => m,
                            None => 0,
                        }
                    } else {
                        0
                    };
                    if rest[pos] == '-' {
                        Some(-(hours * 3600 + minutes * 60))
                    } else {
                        Some(hours * 3600 + minutes * 60)
                    }
                },
            }
        }
    }
}

/// Where the first sign stands from position `i` on; the length where none does.
pub open spec fn sign_index(s: Seq<char>, i: int) -> int
    decreases s.len() - i,
{
    if i < 0 || i >= s.len() {
        s.len() as int
    } else if s[i] == '+' || s[i] == '-' {
        i
    } else {
        sign_index(s, i + 1)
    }
}

/// The epoch seconds that a timestamp such as `2026-08-03T00:53:29-07:00`
/// writes. What separates the fields is not looked at, as long as it is ASCII.
pub open spec fn iso_epoch(s: Seq<char>) -> Option<int> {
    if s.len() < 19 || !text::is_ascii(s[4]) || !text::is_ascii(s[7]) || !text::is_ascii(s[10])
        || !text::is_ascii(s[13]) || !text::is_ascii(s[16]) {
        None
    } else {
        match (
            digits_at(s, 0, 4),
            digits_at(s, 5, 7),
            digits_at(s, 8, 10),
            digits_at(s, 11, 13),
            digits_at(s, 14, 16),
            digits_at(s, 17, 19),
            zone_seconds(s.skip(19)),
        ) {
            (
                Some(year),
                Some(month),
                Some(day),
                Some(hour),
                Some(minute),
                Some(second),
                Some(zone),
            ) => Some(
                civil_days(year, month, day) * 86_400 + hour * 3600 + minute * 60 + second - zone,
            ),
            _ => None,
        }
    }
}

proof fn lemma_short_decimal(s: Seq<char>)
    requires
        text::all_digits(s),
        s.len() <= 4,
    ensures
        text::decimal(s) <= 9999,
        s.len() <= 3 ==> text::decimal(s) <= 999,
        s.len() <= 2 ==> text::decimal(s) <= 99,
        s.len() <= 1 ==> text::decimal(s) <= 9,
        s.len() == 0 ==> text::decimal(s) == 0,
    decreases s.len(),
{
    if s.len() > 0 {
        assert(text::is_digit(s[s.len() - 1]));
        lemma_short_decimal(s.drop_last());
    }
}

proof fn lemma_short_number(s: Seq<char>)
    requires
        1 <= s.len() <= 4,
        text::signed(s) is Some,
    ensures
        -9999 <= text::signed(s).unwrap() <= 9999,
        s.len() <= 2 ==> -9 <= text::signed(s).unwrap() <= 99,
{
    if s[0] == '-' {
        lemma_short_decimal(s.skip(1));
    } else if s[0] == '+' {
        lemma_short_decimal(s.skip(1));
    } else {
        lemma_short_decimal(s);
    }
}

fn read_digits_at(v: &Vec<char>, a: usize, b: usize) -> (out: Option<i64>)
    requires
        a < b <= v.len(),
        b - a <= 4,
    ensures
        match out {
            Some(n) => digits_at(v@, a as int, b as int) == Some(n as int) && -9999 <= n <= 9999
                && (b - a <= 2 ==> -9 <= n <= 99),
            None => digits_at(v@, a as int, b as int) is None,
        },
{
    let field = copy_range(v, a, b);
    match read_signed(&field) {
        Some(n) => {
            proof {
                lemma_short_number(field@);
            }
            Some(n)
        },
        None => None,
    }
}

fn find_sign(v: &Vec<char>) -> (out: usize)
    ensures
        out == sign_index(v@, 0),
        out <= v.len(),
{
    let mut i: usize = 0;
    while i < v.len()
        invariant
            i <= v.len(),
            sign_index(v@, 0) == sign_index(v@, i as int),
        decreases v.len() - i,
    {
        if v[i] == '+' || v[i] == '-' {
            return i;
        }
        i = i + 1;
    }
    i
}

fn ascii(c: char) -> (b: bool)
    ensures
        b == text::is_ascii(c),
{
    (c as u32) < 128
}

fn read_zone(rest: &Vec<char>) -> (out: Option<i64>)
    ensures
        match out {
            Some(n) => zone_seconds(rest@) == Some(n as int) && -1_000_000 <= n <= 1_000_000,
            None => zone_seconds(rest@) is None,
        },
{
    let pos: usize = find_sign(rest);
    if pos >= rest.len() {
        return Some(0);
    }
    let offset = copy_range(rest, pos + 1, rest.len());
    assert(offset@ =~= rest@.skip(pos + 1));
    if offset.len() < 2 {
        return None;
    }
    match read_digits_at(&offset, 0, 2) {
        None => None,
        Some(hours) => {
            let minutes: i64 = if offset.len() >= 5 && ascii(offset[2]) {
                match read_digits_at(&offset, 3, 5) {
                    Some(m) => m,
                    None => 0,
                }
            } else {
                0
            };
            let ahead: i64 = hours * 3600 + minutes * 60;
            if rest[pos] == '-' {
                Some(-ahead)
            } else {
                Some(ahead)
            }
        },
    }
}

fn read_iso_epoch(s: &Vec<char>) -> (out: Option<i64>)
    ensures
        match out {
            Some(n) => iso_epoch(s@) == Some(n as int),
            None => iso_epoch(s@) is None,
        },
{
    if s.len() < 19 || !ascii(s[4]) || !ascii(s[7]) || !ascii(s[10]) || !ascii(s[13]) || !ascii(
        s[16],
    ) {
        return None;
    }
    let rest = copy_range(s, 19, s.len());
    assert(rest@ =~= s@.skip(19));
    match (
        read_digits_at(s, 0, 4),
        read_digits_at(s, 5, 7),
        read_digits_at(s, 8, 10),
        read_digits_at(s, 11, 13),
        read_digits_at(s, 14, 16),
        read_digits_at(s, 17, 19),
        read_zone(&rest),
    ) {
        (
            Some(year),
            Some(month),
            Some(day),
            Some(hour),
            Some(minute),
            Some(second),
            Some(zone),
        ) => {
            proof {
                lemma_civil_days_are_few(year as int, month as int, day as int);
            }
            let days: i64 = days_from_civil(year, month, day);
            Some(days * 86_400 + hour * 3600 + minute * 60 + second - zone)
        },
        _ => None,
    }
}

/// Parse a journal short-iso timestamp such as `2026-08-03T00:53:29-07:00`.
pub fn parse_iso_epoch(s: &str) -> (out: Option<i64>)
    ensures
        match out {
            Some(n) => iso_epoch(s@) == Some(n as int),
            None => iso_epoch(s@) is None,
        },
{
    read_iso_epoch(&to_chars(s))
}

// -- Records ------------------------------------------------------------------

/// The value of a field in the words from `i` on. A field that appears twice
/// counts where it appears first: the first length is the one on the wire.
pub open spec fn field_from(words: Seq<Seq<char>>, name: Seq<char>, i: int) -> Option<Seq<char>>
    decreases words.len() - i,
{
    if i < 0 || i >= words.len() {
        None
    } else {
        match text::split_once(words[i], '=') {
            Some((key, value)) => if key == name {
                Some(value)
            } else {
                field_from(words, name, i + 1)
            },
            None => field_from(words, name, i + 1),
        }
    }
}

/// The number in a field, 0 where there is none or it is larger than `max`.
pub open spec fn number_in(words: Seq<Seq<char>>, name: Seq<char>, max: nat) -> nat {
    match field_from(words, name, 0) {
        Some(v) => match text::unsigned(v, max) {
            Some(n) => n,
            None => 0,
        },
        None => 0,
    }
}

/// When a record was written: the time in its first word, or `now` where that
/// is no timestamp.
pub open spec fn record_time(words: Seq<Seq<char>>, now: i64) -> i64 {
    if words.len() == 0 {
        now
    } else {
        match iso_epoch(words[0]) {
            Some(t) => t as i64,
            None => now,
        }
    }
}

/// The drop record on a line, if it names a source, a destination and a
/// protocol.
pub open spec fn record_on(line: Seq<char>, now: i64) -> Option<EventView> {
    let w = text::words(line);
    match (field_from(w, "SRC"@, 0), field_from(w, "DST"@, 0), field_from(w, "PROTO"@, 0)) {
        (Some(src), Some(dst), Some(proto)) => Some(
            EventView {
                ts: record_time(w, now),
                iface: match field_from(w, "IN"@, 0) {
                    Some(v) => v,
                    None => "?"@,
                },
                src,
                dst,
                proto,
                sport: number_in(w, "SPT"@, u16::MAX as nat) as u16,
                dport: number_in(w, "DPT"@, u16::MAX as nat) as u16,
                len: number_in(w, "LEN"@, u64::MAX as nat) as u64,
            },
        ),
        _ => None,
    }
}

fn find_field(words: &Vec<Vec<char>>, name: &str) -> (out: Option<Vec<char>>)
    ensures
        match out {
            Some(v) => field_from(text::spelled(words@), name@, 0) == Some(v@),
            None => field_from(text::spelled(words@), name@, 0) is None,
        },
{
    let ghost w = text::spelled(words@);
    let mut i: usize = 0;
    while i < words.len()
        invariant
            i <= words.len(),
            w == text::spelled(words@),
            field_from(w, name@, 0) == field_from(w, name@, i as int),
        decreases words.len() - i,
    {
        assert(w[i as int] == words@[i as int]@);
        match cut_once(&words[i], '=') {
            Some((key, value)) => {
                if spells(&key, name) {
                    return Some(value);
                }
            },
            None => {},
        }
        i = i + 1;
    }
    None
}

fn find_number(words: &Vec<Vec<char>>, name: &str, max: u64) -> (out: u64)
    ensures
        out == number_in(text::spelled(words@), name@, max as nat),
        out <= max,
{
    match find_field(words, name) {
        Some(v) => match read_unsigned(&v, max) {
            Some(n) => n,
            None => 0,
        },
        None => 0,
    }
}

/// Pull the fields out of one kernel drop record. Its time comes from the
/// journal, so that replaying history lands events when they happened; `now` is
/// for a line that carries none.
pub fn parse_line_at(line: &str, now: i64) -> (out: Option<BlockEvent>)
    ensures
        match out {
            Some(e) => record_on(line@, now) == Some(e@),
            None => record_on(line@, now) is None,
        },
{
    let words = split_words(&to_chars(line));
    let src = match find_field(&words, "SRC") {
        Some(v) => to_text(&v),
        None => {
            return None;
        },
    };
    let dst = match find_field(&words, "DST") {
        Some(v) => to_text(&v),
        None => {
            return None;
        },
    };
    let proto = match find_field(&words, "PROTO") {
        Some(v) => to_text(&v),
        None => {
            return None;
        },
    };
    let ts: i64 = if words.len() == 0 {
        now
    } else {
        assert(text::spelled(words@)[0] == words@[0]@);
        match read_iso_epoch(&words[0]) {
            Some(t) => t,
            None => now,
        }
    };
    let iface = match find_field(&words, "IN") {
        Some(v) => to_text(&v),
        None => "?".to_owned(),
    };
    Some(
        BlockEvent {
            ts,
            iface,
            src,
            dst,
            proto,
            sport: find_number(&words, "SPT", u16::MAX as u64) as u16,
            dport: find_number(&words, "DPT", u16::MAX as u64) as u16,
            len: find_number(&words, "LEN", u64::MAX),
        },
    )
}

/// [`parse_line_at`] the present time.
pub fn parse_line(line: &str) -> (out: Option<BlockEvent>)
    ensures
        exists|now: i64|
            match out {
                Some(e) => #[trigger] record_on(line@, now) == Some(e@),
                None => record_on(line@, now) is None,
            },
{
    let now: i64 = now_epoch();
    let out = parse_line_at(line, now);
    assert(match out {
        Some(e) => record_on(line@, now) == Some(e@),
        None => record_on(line@, now) is None,
    });
    out
}

// -- Laws ---------------------------------------------------------------------

pub open spec fn leap(year: int) -> bool {
    year % 4 == 0 && (year % 100 != 0 || year % 400 == 0)
}

pub open spec fn month_days(year: int, month: int) -> int {
    if month == 2 {
        if leap(year) {
            29
        } else {
            28
        }
    } else if month == 4 || month == 6 || month == 9 || month == 11 {
        30
    } else {
        31
    }
}

/// The day after a date of the calendar.
pub open spec fn next_day(year: int, month: int, day: int) -> (int, int, int) {
    if day < month_days(year, month) {
        (year, month, day + 1)
    } else if month < 12 {
        (year, month + 1, 1)
    } else {
        (year + 1, 1, 1)
    }
}

/// Day numbers count the days of the Gregorian calendar: the epoch is day 0,
/// each day is one more than the one before it, across month ends, year ends and
/// leap days, each month is as long as the calendar says, and January follows
/// December.
#[verifier::rlimit(60)]
#[verifier::spinoff_prover]
pub proof fn day_numbers_follow_the_calendar(year: int, month: int, day: int)
    requires
        1 <= month <= 12,
    ensures
        civil_days(1970, 1, 1) == 0,
        civil_days(year, month, day + 1) == civil_days(year, month, day) + 1,
        month < 12 ==> civil_days(year, month + 1, 1) == civil_days(year, month, 1) + month_days(
            year,
            month,
        ),
        civil_days(year + 1, 1, 1) == civil_days(year, 12, 1) + 31,
        1 <= day <= month_days(year, month) ==> ({
            let (y, m, d) = next_day(year, month, day);
            civil_days(y, m, d) == civil_days(year, month, day) + 1
        }),
{
    assert(year % 4 == (year % 400) % 4);
    assert(year % 100 == (year % 400) % 100);
    let q = year % 400;
    let p = (year - 1) % 400;
    assert(year == 400 * (year / 400) + q);
    assert(year - 1 == 400 * ((year - 1) / 400) + p);
    if q == 0 {
        assert(p == 399);
        assert((year - 1) / 400 == year / 400 - 1);
    } else {
        assert(p == q - 1);
        assert((year - 1) / 400 == year / 400);
    }
    assert((month + 9) % 12 == if month >= 3 { month - 3 } else { month + 9 });
    assert(((month + 1) + 9) % 12 == if month == 12 { 10 } else if month >= 2 { month - 2 } else {
        month + 10
    });
}

/// The calendar repeats: four hundred years are 146097 days, whichever day they
/// begin on.
pub proof fn four_centuries_are_always_as_long(year: int, month: int, day: int)
    ensures
        civil_days(year + 400, month, day) == civil_days(year, month, day) + 146097,
{
    let shifted = if month <= 2 {
        year - 1
    } else {
        year
    };
    assert((shifted + 400) / 400 == shifted / 400 + 1);
}

/// What follows the first timestamp, source, destination and protocol of a
/// record cannot change them, nor its length: a field counts where it appears
/// first.
pub proof fn the_first_of_a_field_wins(
    words: Seq<Seq<char>>,
    more: Seq<Seq<char>>,
    name: Seq<char>,
    i: int,
)
    requires
        0 <= i <= words.len(),
        field_from(words, name, i) is Some,
    ensures
        field_from(words + more, name, i) == field_from(words, name, i),
    decreases words.len() - i,
{
    if i < words.len() {
        assert((words + more)[i] == words[i]);
        match text::split_once(words[i], '=') {
            Some((key, value)) => if key != name {
                the_first_of_a_field_wins(words, more, name, i + 1);
            },
            None => {
                the_first_of_a_field_wins(words, more, name, i + 1);
            },
        }
    }
}

proof fn lemma_another_field(
    words: Seq<Seq<char>>,
    word: Seq<char>,
    name: Seq<char>,
    i: int,
)
    requires
        0 <= i <= words.len(),
        field_from(words, name, i) is None,
        text::split_once(word, '=') matches Some((key, _)) && key != name,
    ensures
        field_from(words.push(word), name, i) is None,
    decreases words.len() - i,
{
    let all = words.push(word);
    if i < words.len() {
        assert(all[i] == words[i]);
        lemma_another_field(words, word, name, i + 1);
    } else {
        assert(all[i] == word);
        assert(field_from(all, name, i + 1) is None);
    }
}

proof fn lemma_field_kept(
    words: Seq<Seq<char>>,
    word: Seq<char>,
    repeated: Seq<char>,
    value: Seq<char>,
    name: Seq<char>,
)
    requires
        field_from(words, repeated, 0) is Some,
        text::split_once(word, '=') == Some((repeated, value)),
    ensures
        field_from(words.push(word), name, 0) == field_from(words, name, 0),
{
    if field_from(words, name, 0) is Some {
        the_first_of_a_field_wins(words, seq![word], name, 0);
        assert(words + seq![word] =~= words.push(word));
    } else {
        lemma_another_field(words, word, name, 0);
    }
}

/// A field that a line already has can be repeated at its end without changing
/// the record on it, whatever the repetition says.
pub proof fn a_repeated_field_changes_nothing(
    line: Seq<char>,
    name: Seq<char>,
    value: Seq<char>,
    now: i64,
)
    requires
        field_from(text::words(line), name, 0) is Some,
        !name.contains('='),
        forall|k: int| 0 <= k < name.len() ==> !text::is_space(#[trigger] name[k]),
        forall|k: int| 0 <= k < value.len() ==> !text::is_space(#[trigger] value[k]),
    ensures
        record_on(line + " "@ + (name + "="@ + value), now) == record_on(line, now),
{
    let w = text::words(line);
    let word = name + "="@ + value;
    let all = w.push(word);
    reveal_strlit("=");
    assert forall|k: int| 0 <= k < word.len() implies !text::is_space(#[trigger] word[k]) by {
        if k < name.len() {
            assert(word[k] == name[k]);
        } else if k == name.len() {
            assert(word[k] == '=');
        } else {
            assert(word[k] == value[k - name.len() - 1]);
        }
    }
    reveal_strlit(" ");
    assert(" "@ =~= seq![' ']);
    text::a_word_at_the_end_is_one_more(line, ' ', word);
    text::a_split_gives_both_sides(name, '=', value);
    assert(word =~= name + seq!['='] + value);
    lemma_field_kept(w, word, name, value, "SRC"@);
    lemma_field_kept(w, word, name, value, "DST"@);
    lemma_field_kept(w, word, name, value, "PROTO"@);
    lemma_field_kept(w, word, name, value, "IN"@);
    lemma_field_kept(w, word, name, value, "SPT"@);
    lemma_field_kept(w, word, name, value, "DPT"@);
    lemma_field_kept(w, word, name, value, "LEN"@);
    assert(w.len() > 0);
    assert(all[0] == w[0]);
}

/// A moment is read from its date and its time of day, digit by digit at fixed
/// places, less the offset of its zone.
pub proof fn a_moment_reads_by_its_places(
    texts: Seq<Seq<char>>,
    n: Seq<int>,
    marks: Seq<char>,
    rest: Seq<char>,
    zone: int,
)
    requires
        texts.len() == 6,
        n.len() == 6,
        texts[0].len() == 4,
        texts[1].len() == 2 && texts[2].len() == 2 && texts[3].len() == 2 && texts[4].len() == 2
            && texts[5].len() == 2,
        text::signed(texts[0]) == Some(n[0]),
        text::signed(texts[1]) == Some(n[1]),
        text::signed(texts[2]) == Some(n[2]),
        text::signed(texts[3]) == Some(n[3]),
        text::signed(texts[4]) == Some(n[4]),
        text::signed(texts[5]) == Some(n[5]),
        marks.len() == 5,
        forall|i: int| 0 <= i < 5 ==> text::is_ascii(#[trigger] marks[i]),
        zone_seconds(rest) == Some(zone),
    ensures
        iso_epoch(
            texts[0] + seq![marks[0]] + texts[1] + seq![marks[1]] + texts[2] + seq![marks[2]]
                + texts[3] + seq![marks[3]] + texts[4] + seq![marks[4]] + texts[5] + rest,
        ) == Some(
            86400 * civil_days(n[0], n[1], n[2]) + 3600 * n[3] + 60 * n[4] + n[5] - zone,
        ),
{
    let s = texts[0] + seq![marks[0]] + texts[1] + seq![marks[1]] + texts[2] + seq![marks[2]]
        + texts[3] + seq![marks[3]] + texts[4] + seq![marks[4]] + texts[5] + rest;
    assert(s[4] == marks[0] && s[7] == marks[1] && s[10] == marks[2] && s[13] == marks[3] && s[16]
        == marks[4]);
    assert(s.len() >= 19);
    assert(text::is_ascii(s[4]) && text::is_ascii(s[7]) && text::is_ascii(s[10]) && text::is_ascii(
        s[13],
    ) && text::is_ascii(s[16]));
    assert(s.subrange(0, 4) =~= texts[0]);
    assert(s.subrange(5, 7) =~= texts[1]);
    assert(s.subrange(8, 10) =~= texts[2]);
    assert(s.subrange(11, 13) =~= texts[3]);
    assert(s.subrange(14, 16) =~= texts[4]);
    assert(s.subrange(17, 19) =~= texts[5]);
    assert(s.skip(19) =~= rest);
    assert(digits_at(s, 0, 4) == Some(n[0]) && digits_at(s, 5, 7) == Some(n[1]));
    assert(digits_at(s, 8, 10) == Some(n[2]) && digits_at(s, 11, 13) == Some(n[3]));
    assert(digits_at(s, 14, 16) == Some(n[4]) && digits_at(s, 17, 19) == Some(n[5]));
}

proof fn lemma_sign_index(s: Seq<char>, i: int, at: int)
    requires
        0 <= i <= at <= s.len(),
        forall|k: int| i <= k < at ==> #[trigger] s[k] != '+' && s[k] != '-',
        at < s.len() ==> s[at] == '+' || s[at] == '-',
    ensures
        sign_index(s, i) == at,
    decreases at - i,
{
    if i < at {
        assert(s[i] != '+' && s[i] != '-');
        lemma_sign_index(s, i + 1, at);
    }
}

/// A zone's offset is its hours and minutes behind the first sign, and the sign
/// is its own: east of Greenwich is plus. Without a sign there is no offset.
pub proof fn a_zone_is_an_offset_with_its_sign(
    front: Seq<char>,
    hh: Seq<char>,
    mm: Seq<char>,
    hours: int,
    minutes: int,
)
    requires
        !front.contains('+') && !front.contains('-'),
        hh.len() == 2,
        mm.len() == 2,
        text::signed(hh) == Some(hours),
        text::signed(mm) == Some(minutes),
    ensures
        zone_seconds(front) == Some(0int),
        zone_seconds(front + seq!['+'] + hh + seq![':'] + mm) == Some(3600 * hours + 60 * minutes),
        zone_seconds(front + seq!['-'] + hh + seq![':'] + mm) == Some(
            -(3600 * hours + 60 * minutes),
        ),
        zone_seconds(front + seq!['+'] + hh) == Some(3600 * hours),
{
    assert forall|k: int| 0 <= k < front.len() implies #[trigger] front[k] != '+' && front[k]
        != '-' by {
        assert(front.contains(front[k]));
    }
    lemma_sign_index(front, 0, front.len() as int);
    let at = front.len() as int;
    let plus = front + seq!['+'] + hh + seq![':'] + mm;
    let minus = front + seq!['-'] + hh + seq![':'] + mm;
    let short = front + seq!['+'] + hh;
    assert forall|k: int| 0 <= k < at implies #[trigger] plus[k] != '+' && plus[k] != '-' by {
        assert(plus[k] == front[k]);
    }
    assert forall|k: int| 0 <= k < at implies #[trigger] minus[k] != '+' && minus[k] != '-' by {
        assert(minus[k] == front[k]);
    }
    assert forall|k: int| 0 <= k < at implies #[trigger] short[k] != '+' && short[k] != '-' by {
        assert(short[k] == front[k]);
    }
    assert(plus[at] == '+' && minus[at] == '-' && short[at] == '+');
    lemma_sign_index(plus, 0, at);
    lemma_sign_index(minus, 0, at);
    lemma_sign_index(short, 0, at);
    let offset = hh + seq![':'] + mm;
    assert(plus.skip(at + 1) =~= offset);
    assert(minus.skip(at + 1) =~= offset);
    assert(short.skip(at + 1) =~= hh);
    assert(offset.subrange(0, 2) =~= hh);
    assert(offset.subrange(3, 5) =~= mm);
    assert(hh.subrange(0, 2) =~= hh);
    assert(offset[2] == ':');
}

proof fn lemma_field(words: Seq<Seq<char>>, name: Seq<char>, i: int, at: int)
    requires
        0 <= i <= at <= words.len(),
        forall|k: int|
            i <= k < at ==> !text::begins(#[trigger] words[k], name + seq!['=']),
        !name.contains('='),
    ensures
        field_from(words, name, i) == field_from(words, name, at),
    decreases at - i,
{
    if i < at {
        assert(!text::begins(words[i], name + seq!['=']));
        text::a_cut_is_at_the_first_separator(words[i], '=');
        match text::split_once(words[i], '=') {
            Some((key, value)) => {
                if key == name {
                    text::a_prefix_is_taken_off_where_it_stands(
                        words[i],
                        name + seq!['='],
                        value,
                    );
                    assert(words[i] =~= (name + seq!['=']) + value);
                }
            },
            None => {},
        }
        lemma_field(words, name, i + 1, at);
    }
}

/// A field of a record is what stands behind its name and an equals sign, in the
/// first word that begins so. A record without such a word lacks the field.
pub proof fn a_field_stands_behind_its_name(
    words: Seq<Seq<char>>,
    name: Seq<char>,
    value: Seq<char>,
    at: int,
)
    requires
        !name.contains('='),
        0 <= at <= words.len(),
        forall|k: int| 0 <= k < at ==> !text::begins(#[trigger] words[k], name + seq!['=']),
        at < words.len() ==> words[at] == name + seq!['='] + value,
    ensures
        at < words.len() ==> field_from(words, name, 0) == Some(value),
        at == words.len() ==> field_from(words, name, 0) is None,
{
    lemma_field(words, name, 0, at);
    if at < words.len() {
        text::a_split_gives_both_sides(name, '=', value);
    }
}

/// A number of a record is what its field says, and nought where the field is
/// missing, is no number or is too large.
pub proof fn a_number_of_a_record_is_nought_unless_it_reads(
    words: Seq<Seq<char>>,
    name: Seq<char>,
    max: nat,
    n: nat,
)
    ensures
        field_from(words, name, 0) == Some(text::dec(n)) && n <= max ==> number_in(words, name, max)
            == n,
        field_from(words, name, 0) == Some(text::dec(n)) && n > max ==> number_in(words, name, max)
            == 0,
        field_from(words, name, 0) is None ==> number_in(words, name, max) == 0,
{
    text::only_digits_are_a_number(text::dec(n), n, max);
}

/// A line is a record exactly where it has a source, a destination and a protocol.
/// Each part of the record is read from the field of its own; the interface is
/// unknown without its field, the ports and the length are nought without theirs,
/// and the time is that of the first word, or the present where that is none.
pub proof fn a_record_takes_each_part_from_its_field(line: Seq<char>, now: i64, at: int)
    ensures
        ({
            let w = text::words(line);
            let r = record_on(line, now);
            &&& r is Some <==> field_from(w, "SRC"@, 0) is Some && field_from(w, "DST"@, 0) is Some
                && field_from(w, "PROTO"@, 0) is Some
            &&& r is Some ==> r.unwrap().src == field_from(w, "SRC"@, 0).unwrap()
            &&& r is Some ==> r.unwrap().dst == field_from(w, "DST"@, 0).unwrap()
            &&& r is Some ==> r.unwrap().proto == field_from(w, "PROTO"@, 0).unwrap()
            &&& r is Some && field_from(w, "IN"@, 0) is Some ==> r.unwrap().iface == field_from(
                w,
                "IN"@,
                0,
            ).unwrap()
            &&& r is Some && field_from(w, "IN"@, 0) is None ==> r.unwrap().iface == "?"@
            &&& r is Some ==> r.unwrap().sport == number_in(w, "SPT"@, 65535)
            &&& r is Some ==> r.unwrap().dport == number_in(w, "DPT"@, 65535)
            &&& r is Some ==> r.unwrap().len == number_in(w, "LEN"@, 0xffff_ffff_ffff_ffff)
            &&& r is Some && w.len() > 0 && iso_epoch(w[0]) == Some(at) && i64::MIN <= at <= i64::MAX
                ==> r.unwrap().ts == at
            &&& r is Some && w.len() > 0 && iso_epoch(w[0]) is None ==> r.unwrap().ts == now
        }),
{
    let w = text::words(line);
    lemma_number_bound(w, "SPT"@, 65535);
    lemma_number_bound(w, "DPT"@, 65535);
    lemma_number_bound(w, "LEN"@, 0xffff_ffff_ffff_ffff);
}

proof fn lemma_number_bound(words: Seq<Seq<char>>, name: Seq<char>, max: nat)
    ensures
        number_in(words, name, max) <= max,
{
}

/// A text too short for a date and a time of day, or with anything but ASCII
/// between their digits, is no moment.
pub proof fn a_moment_has_its_marks_in_their_places(s: Seq<char>)
    ensures
        s.len() < 19 ==> iso_epoch(s) is None,
        s.len() >= 19 && !(text::is_ascii(s[4]) && text::is_ascii(s[7]) && text::is_ascii(s[10])
            && text::is_ascii(s[13]) && text::is_ascii(s[16])) ==> iso_epoch(s) is None,
        zone_seconds(s.skip(19)) is None ==> iso_epoch(s) is None,
        text::signed(s.subrange(0, 4)) is None || text::signed(s.subrange(5, 7)) is None
            || text::signed(s.subrange(8, 10)) is None || text::signed(s.subrange(11, 13)) is None
            || text::signed(s.subrange(14, 16)) is None || text::signed(s.subrange(17, 19)) is None
            ==> iso_epoch(s) is None,
{
}

/// An offset needs two digits for its hours. Minutes that cannot be read count
/// nothing.
pub proof fn an_offset_needs_its_hours(front: Seq<char>, sign: char, offset: Seq<char>)
    requires
        !front.contains('+') && !front.contains('-'),
        sign == '+' || sign == '-',
    ensures
        ({
            let zone = zone_seconds(front + seq![sign] + offset);
            let hours = text::signed(offset.take(2));
            let read = offset.len() >= 5 && text::is_ascii(offset[2]) && text::signed(
                offset.subrange(3, 5),
            ) is Some;
            &&& offset.len() < 2 || hours is None ==> zone is None
            &&& offset.len() >= 2 && hours is Some && !read && sign == '+' ==> zone == Some(
                3600 * hours.unwrap(),
            )
            &&& offset.len() >= 2 && hours is Some && !read && sign == '-' ==> zone == Some(
                -(3600 * hours.unwrap()),
            )
        }),
{
    let all = front + seq![sign] + offset;
    let at = front.len() as int;
    assert forall|k: int| 0 <= k < at implies #[trigger] all[k] != '+' && all[k] != '-' by {
        assert(all[k] == front[k]);
        assert(front.contains(front[k]));
    }
    assert(all[at] == sign);
    lemma_sign_index(all, 0, at);
    assert(all.skip(at + 1) =~= offset);
    if offset.len() >= 2 {
        assert(offset.subrange(0, 2) =~= offset.take(2));
    }
}

} // verus!
