//! Internet addresses: reading them, writing them, and comparing prefixes.
//!
//! The kernel log writes an IPv6 address fully expanded and `ip` writes the
//! same address compressed, so addresses are compared as numbers and never as
//! texts.

use vstd::prelude::*;

use crate::text;
use crate::text::{
    char_of_digit, copy_range, cut_once, find_text, push_dec, read_hex, read_unsigned, split_char,
    to_chars,
};

verus! {

/// An address of either family, as the number its bits write.
#[derive(Clone, Copy, Debug, PartialEq, Eq, Structural)]
pub enum IpAddr {
    V4(u32),
    V6(u128),
}

// -- IPv4 texts ---------------------------------------------------------------

/// One octet in decimal: one to three digits, no leading zero, at most 255.
pub open spec fn octet(s: Seq<char>) -> Option<nat> {
    if 1 <= s.len() <= 3 && text::all_digits(s) && (s[0] != '0' || s.len() == 1)
        && text::decimal(s) <= 255 {
        Some(text::decimal(s))
    } else {
        None
    }
}

pub open spec fn from_octets(a: int, b: int, c: int, d: int) -> int {
    ((a * 256 + b) * 256 + c) * 256 + d
}

/// The IPv4 address that a text writes: four octets with dots between them.
pub open spec fn v4_of(s: Seq<char>) -> Option<u32> {
    let p = text::pieces(s, '.');
    if p.len() == 4 && octet(p[0]) is Some && octet(p[1]) is Some && octet(p[2]) is Some && octet(
        p[3],
    ) is Some {
        Some(
            from_octets(
                octet(p[0]).unwrap() as int,
                octet(p[1]).unwrap() as int,
                octet(p[2]).unwrap() as int,
                octet(p[3]).unwrap() as int,
            ) as u32,
        )
    } else {
        None
    }
}

fn read_octet(v: &Vec<char>) -> (out: Option<u8>)
    ensures
        match out {
            Some(n) => octet(v@) == Some(n as nat),
            None => octet(v@) is None,
        },
{
    if v.len() < 1 || v.len() > 3 {
        return None;
    }
    if v[0] == '0' && v.len() != 1 {
        return None;
    }
    if v[0] == '+' {
        assert(!text::is_digit(v@[0]));
        return None;
    }
    match read_unsigned(v, 255) {
        Some(n) => Some(n as u8),
        None => None,
    }
}

pub fn read_v4(v: &Vec<char>) -> (out: Option<u32>)
    ensures
        out == v4_of(v@),
{
    let p = split_char(v, '.');
    let ghost model = text::pieces(v@, '.');
    assert(model.len() == p.len());
    if p.len() != 4 {
        return None;
    }
    assert(model[0] == p@[0]@ && model[1] == p@[1]@ && model[2] == p@[2]@ && model[3] == p@[3]@);
    match (read_octet(&p[0]), read_octet(&p[1]), read_octet(&p[2]), read_octet(&p[3])) {
        (Some(a), Some(b), Some(c), Some(d)) => {
            let n: u32 = (((a as u32) * 256 + (b as u32)) * 256 + (c as u32)) * 256 + (d as u32);
            Some(n)
        },
        _ => None,
    }
}

// -- IPv6 texts ---------------------------------------------------------------

/// One group in hexadecimal: one to four digits.
pub open spec fn group(s: Seq<char>) -> Option<u16> {
    if 1 <= s.len() <= 4 && text::all_hex(s) {
        Some(text::hexadecimal(s) as u16)
    } else {
        None
    }
}

/// The groups that the parts write, one each.
pub open spec fn plain_groups(parts: Seq<Seq<char>>) -> Option<Seq<u16>>
    decreases parts.len(),
{
    if parts.len() == 0 {
        Some(Seq::empty())
    } else {
        match (plain_groups(parts.drop_last()), group(parts.last())) {
            (Some(front), Some(g)) => Some(front.push(g)),
            _ => None,
        }
    }
}

pub open spec fn high_half(n: u32) -> u16 {
    (n / 65536) as u16
}

pub open spec fn low_half(n: u32) -> u16 {
    (n % 65536) as u16
}

/// The groups that a text with colons between its parts writes. Where
/// `dotted` allows it, the last part may be an IPv4 address, which stands for
/// two groups.
pub open spec fn chunk(s: Seq<char>, dotted: bool) -> Option<Seq<u16>> {
    if s.len() == 0 {
        Some(Seq::empty())
    } else {
        let parts = text::pieces(s, ':');
        match v4_of(parts.last()) {
            Some(n) => if dotted {
                match plain_groups(parts.drop_last()) {
                    Some(front) => Some(front.push(high_half(n)).push(low_half(n))),
                    None => None,
                }
            } else {
                None
            },
            None => plain_groups(parts),
        }
    }
}

pub open spec fn from_groups(g: Seq<u16>) -> int {
    ((((((g[0] * 65536 + g[1]) * 65536 + g[2]) * 65536 + g[3]) * 65536 + g[4]) * 65536 + g[5])
        * 65536 + g[6]) * 65536 + g[7]
}

pub open spec fn zeros(n: int) -> Seq<u16> {
    Seq::new(n as nat, |i: int| 0u16)
}

/// The IPv6 address that a text writes: eight groups with colons between them,
/// or fewer with one `::` that stands for at least one group of zeros.
pub open spec fn v6_of(s: Seq<char>) -> Option<u128> {
    let gap = text::find_from(s, "::"@, 0);
    if gap >= 0 {
        match (chunk(s.take(gap), false), chunk(s.skip(gap + 2), true)) {
            (Some(head), Some(tail)) => if head.len() + tail.len() <= 7 {
                Some(from_groups(head + zeros(8 - head.len() - tail.len()) + tail) as u128)
            } else {
                None
            },
            _ => None,
        }
    } else {
        match chunk(s, true) {
            Some(g) => if g.len() == 8 {
                Some(from_groups(g) as u128)
            } else {
                None
            },
            None => None,
        }
    }
}

proof fn lemma_short_hex(s: Seq<char>)
    requires
        s.len() <= 4,
        text::all_hex(s),
    ensures
        text::hexadecimal(s) <= 0xffff,
{
    reveal_with_fuel(text::hexadecimal, 5);
    if s.len() > 0 {
        assert(text::is_hex(s[s.len() - 1]));
        let t = s.drop_last();
        if t.len() > 0 {
            assert(text::is_hex(s[t.len() - 1]));
            let u = t.drop_last();
            if u.len() > 0 {
                assert(text::is_hex(s[u.len() - 1]));
                let w = u.drop_last();
                if w.len() > 0 {
                    assert(text::is_hex(s[w.len() - 1]));
                    assert(w.drop_last().len() == 0);
                }
            }
        }
    }
}

fn read_group(v: &Vec<char>) -> (out: Option<u16>)
    ensures
        out == group(v@),
{
    if v.len() < 1 || v.len() > 4 {
        return None;
    }
    if v[0] == '+' {
        assert(!text::is_hex(v@[0]));
        return None;
    }
    proof {
        if text::all_hex(v@) {
            lemma_short_hex(v@);
        }
    }
    match read_hex(v, 0xffff) {
        Some(n) => Some(n as u16),
        None => None,
    }
}

/// The groups of the first `count` parts, one each.
fn read_groups(parts: &Vec<Vec<char>>, count: usize) -> (out: Option<Vec<u16>>)
    requires
        count <= parts.len(),
    ensures
        match out {
            Some(g) => plain_groups(text::spelled(parts@).take(count as int)) == Some(g@),
            None => plain_groups(text::spelled(parts@).take(count as int)) is None,
        },
    decreases count,
{
    let ghost all = text::spelled(parts@).take(count as int);
    if count == 0 {
        let empty: Vec<u16> = Vec::new();
        return Some(empty);
    }
    assert(all.drop_last() =~= text::spelled(parts@).take(count - 1));
    assert(all.last() == parts@[count - 1]@);
    match (read_groups(parts, count - 1), read_group(&parts[count - 1])) {
        (Some(front), Some(g)) => {
            let mut out = front;
            out.push(g);
            Some(out)
        },
        _ => None,
    }
}

fn read_chunk(v: &Vec<char>, dotted: bool) -> (out: Option<Vec<u16>>)
    ensures
        match out {
            Some(g) => chunk(v@, dotted) == Some(g@),
            None => chunk(v@, dotted) is None,
        },
{
    if v.len() == 0 {
        let empty: Vec<u16> = Vec::new();
        return Some(empty);
    }
    let parts = split_char(v, ':');
    let ghost model = text::pieces(v@, ':');
    assert(model == text::spelled(parts@));
    let last: usize = parts.len() - 1;
    assert(model.last() == parts@[last as int]@);
    match read_v4(&parts[last]) {
        Some(n) => {
            if !dotted {
                return None;
            }
            assert(model.drop_last() =~= model.take(last as int));
            match read_groups(&parts, last) {
                Some(front) => {
                    let mut out = front;
                    out.push((n / 65536) as u16);
                    out.push((n % 65536) as u16);
                    Some(out)
                },
                None => None,
            }
        },
        None => {
            assert(model =~= model.take(parts.len() as int));
            read_groups(&parts, parts.len())
        },
    }
}

fn number_of_groups(g: &Vec<u16>) -> (n: u128)
    requires
        g.len() == 8,
    ensures
        n == from_groups(g@),
{
    ((((((((g[0] as u128) * 65536 + (g[1] as u128)) * 65536 + (g[2] as u128)) * 65536 + (
    g[3] as u128)) * 65536 + (g[4] as u128)) * 65536 + (g[5] as u128)) * 65536 + (g[6] as u128))
        * 65536) + (g[7] as u128)
}

/// The number of the groups `head`, then zeros up to eight groups, then `tail`.
fn number_with_gap(head: Vec<u16>, tail: &Vec<u16>) -> (n: u128)
    requires
        head.len() + tail.len() <= 7,
    ensures
        n == from_groups(head@ + zeros(8 - head@.len() - tail@.len()) + tail@),
{
    let mut g: Vec<u16> = head;
    let stop: usize = 8 - tail.len();
    while g.len() < stop
        invariant
            head@.len() <= g.len() <= stop <= 8,
            g@ == head@ + zeros(g.len() - head@.len()),
        decreases stop - g.len(),
    {
        g.push(0);
        assert(g@ =~= head@ + zeros(g.len() - head@.len()));
    }
    let ghost padded = g@;
    let mut i: usize = 0;
    while i < tail.len()
        invariant
            i <= tail.len(),
            g@ == padded + tail@.take(i as int),
        decreases tail.len() - i,
    {
        g.push(tail[i]);
        i = i + 1;
        assert(g@ =~= padded + tail@.take(i as int));
    }
    assert(tail@.take(i as int) =~= tail@);
    number_of_groups(&g)
}

pub fn read_v6(v: &Vec<char>) -> (out: Option<u128>)
    ensures
        out == v6_of(v@),
{
    proof {
        reveal_strlit("::");
    }
    let mark = to_chars("::");
    assert(mark@.len() == 2);
    match find_text(v, &mark) {
        Some(gap) => {
            assert(gap + 2 <= v.len());
            let front = copy_range(v, 0, gap);
            let back = copy_range(v, gap + 2, v.len());
            assert(front@ =~= v@.take(gap as int));
            assert(back@ =~= v@.skip(gap + 2));
            match (read_chunk(&front, false), read_chunk(&back, true)) {
                (Some(head), Some(tail)) => {
                    if head.len() > 7 || tail.len() > 7 - head.len() {
                        return None;
                    }
                    Some(number_with_gap(head, &tail))
                },
                _ => None,
            }
        },
        None => {
            match read_chunk(v, true) {
                Some(g) => {
                    if g.len() == 8 {
                        Some(number_of_groups(&g))
                    } else {
                        None
                    }
                },
                None => None,
            }
        },
    }
}

// -- Addresses ----------------------------------------------------------------

/// The address that a text writes, of either family.
pub open spec fn ip_of(s: Seq<char>) -> Option<IpAddr> {
    match v4_of(s) {
        Some(n) => Some(IpAddr::V4(n)),
        None => match v6_of(s) {
            Some(n) => Some(IpAddr::V6(n)),
            None => None,
        },
    }
}

pub fn read_ip(v: &Vec<char>) -> (out: Option<IpAddr>)
    ensures
        out == ip_of(v@),
{
    match read_v4(v) {
        Some(n) => Some(IpAddr::V4(n)),
        None => match read_v6(v) {
            Some(n) => Some(IpAddr::V6(n)),
            None => None,
        },
    }
}

/// Read an address as written by either `ip` or the kernel log.
pub fn parse_ip(s: &str) -> (out: Option<IpAddr>)
    ensures
        out == ip_of(s@),
{
    read_ip(&to_chars(s))
}

/// The width of an address of this family, in bits.
pub open spec fn width(ip: IpAddr) -> nat {
    match ip {
        IpAddr::V4(_) => 32,
        IpAddr::V6(_) => 128,
    }
}

/// `addr/prefixlen`, where a bare address is a host route.
pub open spec fn cidr_of(s: Seq<char>) -> Option<(IpAddr, u8)> {
    match text::split_once(s, '/') {
        Some((addr, prefix)) => match (ip_of(addr), text::unsigned(prefix, 255)) {
            (Some(ip), Some(len)) => if len <= width(ip) {
                Some((ip, len as u8))
            } else {
                None
            },
            _ => None,
        },
        None => match ip_of(s) {
            Some(ip) => Some((ip, width(ip) as u8)),
            None => None,
        },
    }
}

pub fn read_cidr(v: &Vec<char>) -> (out: Option<(IpAddr, u8)>)
    ensures
        out == cidr_of(v@),
{
    match cut_once(v, '/') {
        Some((addr, prefix)) => {
            match (read_ip(&addr), read_unsigned(&prefix, 255)) {
                (Some(ip), Some(len)) => {
                    let full: u64 = match ip {
                        IpAddr::V4(_) => 32,
                        IpAddr::V6(_) => 128,
                    };
                    if len <= full {
                        Some((ip, len as u8))
                    } else {
                        None
                    }
                },
                _ => None,
            }
        },
        None => {
            match read_ip(v) {
                Some(ip) => {
                    let full: u8 = match ip {
                        IpAddr::V4(_) => 32,
                        IpAddr::V6(_) => 128,
                    };
                    Some((ip, full))
                },
                None => None,
            }
        },
    }
}

/// Read `addr/prefixlen`. A bare address is a host route, which is what `ip`
/// means when it omits the prefix.
pub fn parse_cidr(s: &str) -> (out: Option<(IpAddr, u8)>)
    ensures
        out == cidr_of(s@),
{
    read_cidr(&to_chars(s))
}

impl IpAddr {
    /// 127.0.0.0/8, and `::1`.
    pub open spec fn loopback(self) -> bool {
        match self {
            IpAddr::V4(n) => n / 0x100_0000 == 127,
            IpAddr::V6(n) => n == 1,
        }
    }

    /// 224.0.0.0/4, and ff00::/8.
    pub open spec fn multicast(self) -> bool {
        match self {
            IpAddr::V4(n) => n / 0x1000_0000 == 14,
            IpAddr::V6(n) => n / 0x100_0000_0000_0000_0000_0000_0000_0000 == 0xff,
        }
    }

    /// All bits zero: the address that stands for any address of its family.
    pub open spec fn unspecified(self) -> bool {
        match self {
            IpAddr::V4(n) => n == 0,
            IpAddr::V6(n) => n == 0,
        }
    }

    pub fn is_loopback(&self) -> (b: bool)
        ensures
            b == self.loopback(),
    {
        match self {
            IpAddr::V4(n) => *n / 0x100_0000 == 127,
            IpAddr::V6(n) => *n == 1,
        }
    }

    pub fn is_multicast(&self) -> (b: bool)
        ensures
            b == self.multicast(),
    {
        match self {
            IpAddr::V4(n) => *n / 0x1000_0000 == 14,
            IpAddr::V6(n) => *n / 0x100_0000_0000_0000_0000_0000_0000_0000 == 0xff,
        }
    }

    pub fn is_unspecified(&self) -> (b: bool)
        ensures
            b == self.unspecified(),
    {
        match self {
            IpAddr::V4(n) => *n == 0,
            IpAddr::V6(n) => *n == 0,
        }
    }

    pub fn is_ipv6(&self) -> (b: bool)
        ensures
            b == (self is V6),
    {
        match self {
            IpAddr::V4(_) => false,
            IpAddr::V6(_) => true,
        }
    }
}

// -- Prefixes -----------------------------------------------------------------

/// Bit `k` of a string of octets, counted from the most significant.
pub open spec fn bit(octets: Seq<u8>, k: int) -> bool {
    octets[k / 8] & (0x80u8 >> ((k % 8) as u8)) != 0
}

/// Two strings of octets agree on their first `n` bits.
pub open spec fn agree(a: Seq<u8>, b: Seq<u8>, n: int) -> bool {
    forall|k: int| 0 <= k < n ==> #[trigger] bit(a, k) == bit(b, k)
}

proof fn lemma_octet_bits(a: u8, b: u8)
    ensures
        (forall|j: u8| j < 8 ==> (a & (0x80u8 >> j) != 0) == (b & (0x80u8 >> j) != 0)) ==> a == b,
{
    if forall|j: u8| j < 8 ==> (a & (0x80u8 >> j) != 0) == (b & (0x80u8 >> j) != 0) {
        assert((a & (0x80u8 >> 0u8) != 0) == (b & (0x80u8 >> 0u8) != 0));
        assert((a & (0x80u8 >> 1u8) != 0) == (b & (0x80u8 >> 1u8) != 0));
        assert((a & (0x80u8 >> 2u8) != 0) == (b & (0x80u8 >> 2u8) != 0));
        assert((a & (0x80u8 >> 3u8) != 0) == (b & (0x80u8 >> 3u8) != 0));
        assert((a & (0x80u8 >> 4u8) != 0) == (b & (0x80u8 >> 4u8) != 0));
        assert((a & (0x80u8 >> 5u8) != 0) == (b & (0x80u8 >> 5u8) != 0));
        assert((a & (0x80u8 >> 6u8) != 0) == (b & (0x80u8 >> 6u8) != 0));
        assert((a & (0x80u8 >> 7u8) != 0) == (b & (0x80u8 >> 7u8) != 0));
        assert(a == b) by (bit_vector)
            requires
                (a & (0x80u8 >> 0u8) != 0) == (b & (0x80u8 >> 0u8) != 0),
                (a & (0x80u8 >> 1u8) != 0) == (b & (0x80u8 >> 1u8) != 0),
                (a & (0x80u8 >> 2u8) != 0) == (b & (0x80u8 >> 2u8) != 0),
                (a & (0x80u8 >> 3u8) != 0) == (b & (0x80u8 >> 3u8) != 0),
                (a & (0x80u8 >> 4u8) != 0) == (b & (0x80u8 >> 4u8) != 0),
                (a & (0x80u8 >> 5u8) != 0) == (b & (0x80u8 >> 5u8) != 0),
                (a & (0x80u8 >> 6u8) != 0) == (b & (0x80u8 >> 6u8) != 0),
                (a & (0x80u8 >> 7u8) != 0) == (b & (0x80u8 >> 7u8) != 0),
        ;
    }
}

/// The masked octets are equal exactly when the bits under the mask are.
proof fn lemma_masked_octet(a: u8, b: u8, n: u8)
    requires
        0 < n < 8,
    ensures
        ((a ^ b) & (0xffu8 << ((8 - n) as u8)) == 0) == (forall|j: u8|
            j < n ==> (a & (0x80u8 >> j) != 0) == (b & (0x80u8 >> j) != 0)),
{
    let m = (8 - n) as u8;
    if (a ^ b) & (0xffu8 << m) == 0 {
        assert forall|j: u8| j < n implies (a & (0x80u8 >> j) != 0) == (b & (0x80u8 >> j) != 0) by {
            assert((a & (0x80u8 >> j) != 0) == (b & (0x80u8 >> j) != 0)) by (bit_vector)
                requires
                    (a ^ b) & (0xffu8 << m) == 0,
                    0 < n < 8,
                    m == 8 - n,
                    j < n,
            ;
        }
    } else {
        let j: u8 = if (a ^ b) & 0x80 != 0 {
            0
        } else if (a ^ b) & 0x40 != 0 {
            1
        } else if (a ^ b) & 0x20 != 0 {
            2
        } else if (a ^ b) & 0x10 != 0 {
            3
        } else if (a ^ b) & 0x08 != 0 {
            4
        } else if (a ^ b) & 0x04 != 0 {
            5
        } else {
            6
        };
        assert(j < n && (a & (0x80u8 >> j) != 0) != (b & (0x80u8 >> j) != 0)) by (bit_vector)
            requires
                (a ^ b) & (0xffu8 << m) != 0,
                0 < n < 8,
                m == 8 - n,
                j == (if (a ^ b) & 0x80 != 0 {
                    0u8
                } else if (a ^ b) & 0x40 != 0 {
                    1u8
                } else if (a ^ b) & 0x20 != 0 {
                    2u8
                } else if (a ^ b) & 0x10 != 0 {
                    3u8
                } else if (a ^ b) & 0x08 != 0 {
                    4u8
                } else if (a ^ b) & 0x04 != 0 {
                    5u8
                } else {
                    6u8
                }),
        ;
    }
}

/// Whether two strings of octets agree on their first `prefix_len` bits. A
/// prefix longer than either string is nonsense, and refused.
pub fn bits_match(a: &Vec<u8>, b: &Vec<u8>, prefix_len: u8) -> (r: bool)
    ensures
        r == (prefix_len <= 8 * a.len() && prefix_len <= 8 * b.len() && agree(
            a@,
            b@,
            prefix_len as int,
        )),
{
    let whole: usize = (prefix_len / 8) as usize;
    let leftover: u8 = prefix_len % 8;
    if whole > a.len() || (whole == a.len() && leftover > 0) {
        return false;
    }
    if whole > b.len() || (whole == b.len() && leftover > 0) {
        return false;
    }
    let mut i: usize = 0;
    while i < whole
        invariant
            i <= whole <= a.len(),
            whole <= b.len(),
            whole == prefix_len / 8,
            prefix_len <= 8 * a.len(),
            prefix_len <= 8 * b.len(),
            forall|j: int| 0 <= j < i ==> a@[j] == b@[j],
        decreases whole - i,
    {
        if a[i] != b[i] {
            proof {
                if agree(a@, b@, prefix_len as int) {
                    assert forall|j: u8| j < 8 implies (a@[i as int] & (0x80u8 >> j) != 0) == (
                    b@[i as int] & (0x80u8 >> j) != 0) by {
                        let k: int = 8 * i + j;
                        assert(k / 8 == i && k % 8 == j && k < prefix_len);
                        assert(bit(a@, k) == bit(b@, k));
                    }
                    lemma_octet_bits(a@[i as int], b@[i as int]);
                }
            }
            return false;
        }
        i = i + 1;
    }
    if leftover == 0 {
        assert forall|k: int| 0 <= k < prefix_len implies bit(a@, k) == bit(b@, k) by {
            assert(k / 8 < whole);
        }
        return true;
    }
    let mask: u8 = 0xffu8 << (8 - leftover);
    let equal: bool = (a[whole] ^ b[whole]) & mask == 0;
    proof {
        lemma_masked_octet(a@[whole as int], b@[whole as int], leftover);
        if equal {
            assert forall|k: int| 0 <= k < prefix_len implies bit(a@, k) == bit(b@, k) by {
                if k / 8 < whole {
                } else {
                    assert(k / 8 == whole);
                    let j = (k % 8) as u8;
                    assert(j < leftover);
                }
            }
        } else {
            let j = choose|j: u8|
                j < leftover && (a@[whole as int] & (0x80u8 >> j) != 0) != (b@[whole as int] & (
                0x80u8 >> j) != 0);
            let k: int = 8 * whole + j;
            assert(k / 8 == whole && k % 8 == j && k < prefix_len);
            assert(bit(a@, k) != bit(b@, k));
        }
    }
    equal
}

/// The octets of an address, most significant first.
pub open spec fn octets_of(ip: IpAddr) -> Seq<u8> {
    match ip {
        IpAddr::V4(n) => Seq::new(4, |i: int| (n >> ((24 - 8 * i) as u32)) as u8),
        IpAddr::V6(n) => Seq::new(16, |i: int| (n >> ((120 - 8 * i) as u128)) as u8),
    }
}

pub fn octets(ip: &IpAddr) -> (out: Vec<u8>)
    ensures
        out@ == octets_of(*ip),
        out.len() * 8 == width(*ip),
{
    let mut out: Vec<u8> = Vec::new();
    match ip {
        IpAddr::V4(n) => {
            let mut i: u32 = 0;
            while i < 4
                invariant
                    i <= 4,
                    ip == IpAddr::V4(*n),
                    out@ == octets_of(*ip).take(i as int),
                decreases 4 - i,
            {
                out.push((*n >> (24 - 8 * i)) as u8);
                i = i + 1;
                assert(out@ =~= octets_of(*ip).take(i as int));
            }
            assert(out@ =~= octets_of(*ip));
        },
        IpAddr::V6(n) => {
            let mut i: u128 = 0;
            while i < 16
                invariant
                    i <= 16,
                    ip == IpAddr::V6(*n),
                    out@ == octets_of(*ip).take(i as int),
                decreases 16 - i,
            {
                out.push((*n >> (120 - 8 * i)) as u8);
                i = i + 1;
                assert(out@ =~= octets_of(*ip).take(i as int));
            }
            assert(out@ =~= octets_of(*ip));
        },
    }
    out
}

/// Two addresses of one family agree on their first `n` bits. Addresses of
/// different families share no prefix, whatever their bits.
pub open spec fn same_prefix(a: IpAddr, b: IpAddr, n: int) -> bool {
    width(a) == width(b) && n <= width(a) && agree(octets_of(a), octets_of(b), n)
}

/// Do two addresses agree on their first `prefix_len` bits?
pub fn shares_prefix(a: &IpAddr, b: &IpAddr, prefix_len: u8) -> (r: bool)
    ensures
        r == same_prefix(*a, *b, prefix_len as int),
{
    match (a, b) {
        (IpAddr::V4(_), IpAddr::V4(_)) => bits_match(&octets(a), &octets(b), prefix_len),
        (IpAddr::V6(_), IpAddr::V6(_)) => bits_match(&octets(a), &octets(b), prefix_len),
        _ => false,
    }
}

/// An address of one family is on no subnet of the other.
pub proof fn families_never_share_a_prefix(a: u32, b: u128, n: int)
    ensures
        !same_prefix(IpAddr::V4(a), IpAddr::V6(b), n),
        !same_prefix(IpAddr::V6(b), IpAddr::V4(a), n),
{
}

/// A shorter prefix is shared wherever a longer one is.
pub proof fn a_shared_prefix_shares_its_beginning(a: IpAddr, b: IpAddr, m: int, n: int)
    requires
        m <= n,
        same_prefix(a, b, n),
    ensures
        same_prefix(a, b, m),
{
}

// -- Writing addresses --------------------------------------------------------

pub open spec fn hex_char(d: int) -> char {
    if d < 10 {
        text::digit_char(d)
    } else {
        (('a' as u32) + d - 10) as char
    }
}

/// A number in lowercase hexadecimal, without leading zeros.
pub open spec fn hex(n: nat) -> Seq<char>
    decreases n,
{
    if n < 16 {
        seq![hex_char(n as int)]
    } else {
        hex(n / 16).push(hex_char((n % 16) as int))
    }
}

fn push_hex(out: &mut String, n: u16)
    ensures
        final(out)@ == old(out)@ + hex(n as nat),
    decreases n,
{
    let ghost start = out@;
    let d: u8 = (n % 16) as u8;
    if n >= 16 {
        push_hex(out, n / 16);
    }
    if d < 10 {
        out.push(char_of_digit(d));
    } else {
        out.push(('a' as u8 + (d - 10)) as char);
    }
    assert(out@ =~= start + hex(n as nat));
}

/// An IPv4 address in dotted decimal.
pub open spec fn v4_text(n: u32) -> Seq<char> {
    text::dec((n / 0x100_0000) as nat) + "."@ + text::dec(
        (n / 0x1_0000 % 0x100) as nat,
    ) + "."@ + text::dec((n / 0x100 % 0x100) as nat) + "."@ + text::dec(
        (n % 0x100) as nat,
    )
}

pub fn push_v4(out: &mut String, n: u32)
    ensures
        final(out)@ == old(out)@ + v4_text(n),
{
    let ghost start = out@;
    push_dec(out, (n / 0x100_0000) as u64);
    out.append(".");
    push_dec(out, (n / 0x1_0000 % 0x100) as u64);
    out.append(".");
    push_dec(out, (n / 0x100 % 0x100) as u64);
    out.append(".");
    push_dec(out, (n % 0x100) as u64);
    assert(out@ =~= start + v4_text(n));
}

/// The eight groups of an IPv6 address, most significant first.
pub open spec fn groups_of(n: u128) -> Seq<u16> {
    Seq::new(8, |i: int| (n >> ((112 - 16 * i) as u128)) as u16)
}

fn groups(n: u128) -> (out: Vec<u16>)
    ensures
        out@ == groups_of(n),
        out.len() == 8,
{
    let mut out: Vec<u16> = Vec::new();
    let mut i: u128 = 0;
    while i < 8
        invariant
            i <= 8,
            out@ == groups_of(n).take(i as int),
        decreases 8 - i,
    {
        out.push((n >> (112 - 16 * i)) as u16);
        i = i + 1;
        assert(out@ =~= groups_of(n).take(i as int));
    }
    assert(out@ =~= groups_of(n));
    out
}

/// How many groups of zeros stand one after the other from position `i` on.
pub open spec fn zero_run(g: Seq<u16>, i: int) -> int
    decreases g.len() - i,
{
    if i >= g.len() || g[i] != 0 {
        0
    } else {
        1 + zero_run(g, i + 1)
    }
}

/// Where the longest run of zeros among those that begin before `n` begins, and
/// how long it is. The first of several longest ones counts.
pub open spec fn longest_run(g: Seq<u16>, n: int) -> (int, int)
    decreases n,
{
    if n <= 0 {
        (0, 0)
    } else {
        let best = longest_run(g, n - 1);
        let here = zero_run(g, n - 1);
        if here > best.1 {
            (n - 1, here)
        } else {
            best
        }
    }
}

pub open spec fn group_texts(g: Seq<u16>) -> Seq<Seq<char>> {
    g.map_values(|x: u16| hex(x as nat))
}

/// An IPv6 address as it is written for people: the longest run of two or more
/// zero groups as `::`, and an IPv4-mapped address with its dotted half.
pub open spec fn v6_text(n: u128) -> Seq<char> {
    let g = groups_of(n);
    let gap = longest_run(g, 8);
    if n / 0x1_0000_0000 == 0xffff {
        "::ffff:"@ + v4_text((n % 0x1_0000_0000) as u32)
    } else if gap.1 > 1 {
        text::join(group_texts(g.take(gap.0)), ":"@) + "::"@ + text::join(
            group_texts(g.skip(gap.0 + gap.1)),
            ":"@,
        )
    } else {
        text::join(group_texts(g), ":"@)
    }
}

pub open spec fn ip_text(ip: IpAddr) -> Seq<char> {
    match ip {
        IpAddr::V4(n) => v4_text(n),
        IpAddr::V6(n) => v6_text(n),
    }
}

proof fn lemma_longest_run(g: Seq<u16>, n: int)
    requires
        0 <= n <= g.len(),
    ensures
        0 <= longest_run(g, n).0,
        0 <= longest_run(g, n).1,
        longest_run(g, n).0 + longest_run(g, n).1 <= g.len(),
    decreases n,
{
    if n > 0 {
        lemma_longest_run(g, n - 1);
        lemma_zero_run(g, n - 1);
    }
}

proof fn lemma_zero_run(g: Seq<u16>, i: int)
    requires
        0 <= i <= g.len(),
    ensures
        0 <= zero_run(g, i) <= g.len() - i,
    decreases g.len() - i,
{
    if i < g.len() && g[i] == 0 {
        lemma_zero_run(g, i + 1);
    }
}

fn push_groups(out: &mut String, g: &Vec<u16>, from: usize, to: usize)
    requires
        from <= to <= g.len(),
    ensures
        final(out)@ == old(out)@ + text::join(
            group_texts(g@.subrange(from as int, to as int)),
            ":"@,
        ),
{
    let ghost start = out@;
    let ghost all = group_texts(g@.subrange(from as int, to as int));
    let mut i: usize = from;
    assert(start + text::join(all.take(0), ":"@) =~= start);
    while i < to
        invariant
            from <= i <= to <= g.len(),
            all == group_texts(g@.subrange(from as int, to as int)),
            out@ == start + text::join(all.take(i - from), ":"@),
        decreases to - i,
    {
        let ghost before = out@;
        if i > from {
            out.append(":");
        }
        push_hex(out, g[i]);
        i = i + 1;
        assert(all.take(i - from).drop_last() =~= all.take(i - 1 - from));
        assert(all.take(i - from).last() == hex(g@[i - 1] as nat));
        assert(out@ =~= start + text::join(all.take(i - from), ":"@));
    }
    assert(all.take(to - from) =~= all);
}

fn find_longest_run(g: &Vec<u16>) -> (gap: (usize, usize))
    ensures
        gap.0 == longest_run(g@, g@.len() as int).0,
        gap.1 == longest_run(g@, g@.len() as int).1,
        gap.0 + gap.1 <= g.len(),
{
    let mut best: (usize, usize) = (0, 0);
    let mut n: usize = 0;
    while n < g.len()
        invariant
            n <= g.len(),
            best.0 == longest_run(g@, n as int).0,
            best.1 == longest_run(g@, n as int).1,
        decreases g.len() - n,
    {
        let mut j: usize = n;
        while j < g.len() && g[j] == 0
            invariant
                n <= j <= g.len(),
                zero_run(g@, n as int) == (j - n) + zero_run(g@, j as int),
            decreases g.len() - j,
        {
            j = j + 1;
        }
        if j - n > best.1 {
            best = (n, j - n);
        }
        n = n + 1;
    }
    proof {
        lemma_longest_run(g@, g@.len() as int);
    }
    best
}

impl IpAddr {
    /// The address as text.
    pub fn to_text(&self) -> (out: String)
        ensures
            out@ == ip_text(*self),
    {
        let mut out: String = String::new();
        match self {
            IpAddr::V4(n) => {
                push_v4(&mut out, *n);
            },
            IpAddr::V6(n) => {
                if *n / 0x1_0000_0000 == 0xffff {
                    out.append("::ffff:");
                    push_v4(&mut out, (*n % 0x1_0000_0000) as u32);
                } else {
                    let g = groups(*n);
                    let gap = find_longest_run(&g);
                    if gap.1 > 1 {
                        push_groups(&mut out, &g, 0, gap.0);
                        out.append("::");
                        push_groups(&mut out, &g, gap.0 + gap.1, g.len());
                        assert(g@.subrange(0, gap.0 as int) =~= g@.take(gap.0 as int));
                        assert(g@.subrange(gap.0 + gap.1, g@.len() as int) =~= g@.skip(
                            gap.0 + gap.1,
                        ));
                    } else {
                        push_groups(&mut out, &g, 0, g.len());
                        assert(g@.subrange(0, g@.len() as int) =~= g@);
                    }
                }
            },
        }
        assert(out@ =~= ip_text(*self));
        out
    }
}

// -- Networks -----------------------------------------------------------------

/// The first `bits` bits of the number, the rest cleared.
pub open spec fn keep_v4(n: u32, bits: int) -> u32 {
    if bits <= 0 {
        0
    } else {
        n & (u32::MAX << ((32 - bits) as u32))
    }
}

/// The first `bits` bits of the number, the rest cleared.
pub open spec fn keep_v6(n: u128, bits: int) -> u128 {
    if bits <= 0 {
        0
    } else {
        n & (u128::MAX << ((128 - bits) as u128))
    }
}

/// The network that an `addr/prefixlen` lies in, written the same way.
pub open spec fn network_text(s: Seq<char>) -> Option<Seq<char>> {
    match text::split_once(s, '/') {
        None => None,
        Some((addr, prefix)) => match text::unsigned(prefix, u32::MAX as nat) {
            None => None,
            Some(bits) => match v4_of(addr) {
                Some(n) => if bits > 32 {
                    None
                } else {
                    Some(v4_text(keep_v4(n, bits as int)) + "/"@ + text::dec(bits))
                },
                None => match v6_of(addr) {
                    Some(n) => if bits > 128 {
                        None
                    } else {
                        Some(v6_text(keep_v6(n, bits as int)) + "/"@ + text::dec(bits))
                    },
                    None => None,
                },
            },
        },
    }
}

/// `10.3.252.119/16` becomes `10.3.0.0/16`. Nothing comes of a text that does
/// not write an address with a prefix length that fits it.
pub fn network_of(cidr: &str) -> (out: Option<String>)
    ensures
        match out {
            Some(t) => network_text(cidr@) == Some(t@),
            None => network_text(cidr@) is None,
        },
{
    match cut_once(&to_chars(cidr), '/') {
        None => None,
        Some((addr, prefix)) => {
            match read_unsigned(&prefix, 0xffff_ffff) {
                None => None,
                Some(bits) => {
                    match read_v4(&addr) {
                        Some(n) => {
                            if bits > 32 {
                                return None;
                            }
                            let net: u32 = if bits == 0 {
                                0
                            } else {
                                n & (u32::MAX << (32 - bits as u32))
                            };
                            let mut out: String = IpAddr::V4(net).to_text();
                            out.append("/");
                            push_dec(&mut out, bits);
                            Some(out)
                        },
                        None => {
                            match read_v6(&addr) {
                                Some(n) => {
                                    if bits > 128 {
                                        return None;
                                    }
                                    let net: u128 = if bits == 0 {
                                        0
                                    } else {
                                        n & (u128::MAX << (128 - bits as u128))
                                    };
                                    let mut out: String = IpAddr::V6(net).to_text();
                                    out.append("/");
                                    push_dec(&mut out, bits);
                                    Some(out)
                                },
                                None => None,
                            }
                        },
                    }
                },
            }
        },
    }
}

proof fn lemma_v4_bit(n: u32, k: int)
    requires
        0 <= k < 32,
    ensures
        bit(octets_of(IpAddr::V4(n)), k) == (n & (0x8000_0000u32 >> (k as u32)) != 0),
{
    let i = (k / 8) as u32;
    let j = (k % 8) as u32;
    let j8 = j as u8;
    let kk = k as u32;
    assert(octets_of(IpAddr::V4(n))[k / 8] == (n >> ((24 - 8 * i) as u32)) as u8);
    let sh = (24 - 8 * i) as u32;
    assert((((n >> sh) as u8) & (0x80u8 >> j8) != 0) == (n & (0x8000_0000u32 >> kk) != 0))
        by (bit_vector)
        requires
            i < 4,
            j < 8,
            j8 == j,
            kk == 8 * i + j,
            sh == 24 - 8 * i,
    ;
}

proof fn lemma_v6_bit(n: u128, k: int)
    requires
        0 <= k < 128,
    ensures
        bit(octets_of(IpAddr::V6(n)), k) == (n
            & (0x8000_0000_0000_0000_0000_0000_0000_0000u128 >> (k as u128)) != 0),
{
    let i = (k / 8) as u128;
    let j = (k % 8) as u128;
    let j8 = j as u8;
    let kk = k as u128;
    let sh = (120 - 8 * i) as u128;
    assert(octets_of(IpAddr::V6(n))[k / 8] == (n >> sh) as u8);
    assert((((n >> sh) as u8) & (0x80u8 >> j8) != 0) == (n
        & (0x8000_0000_0000_0000_0000_0000_0000_0000u128 >> kk) != 0)) by (bit_vector)
        requires
            i < 16,
            j < 8,
            j8 == j,
            kk == 8 * i + j,
            sh == 120 - 8 * i,
    ;
}

/// The network of an IPv4 address keeps the bits of the prefix and clears the
/// others, so the address lies in its own network.
pub proof fn an_ipv4_address_lies_in_its_network(n: u32, bits: int)
    requires
        0 <= bits <= 32,
    ensures
        same_prefix(IpAddr::V4(keep_v4(n, bits)), IpAddr::V4(n), bits),
        forall|k: int|
            bits <= k < 32 ==> !#[trigger] bit(octets_of(IpAddr::V4(keep_v4(n, bits))), k),
{
    let net = keep_v4(n, bits);
    assert forall|k: int| 0 <= k < 32 implies #[trigger] bit(octets_of(IpAddr::V4(net)), k) == (k
        < bits && bit(octets_of(IpAddr::V4(n)), k)) by {
        lemma_v4_bit(n, k);
        lemma_v4_bit(net, k);
        let b = bits as u32;
        let kk = k as u32;
        if bits > 0 {
            let sh = (32 - b) as u32;
            let m = u32::MAX << sh;
            assert((n & m) & (0x8000_0000u32 >> kk) != 0 <==> (kk < b && n & (0x8000_0000u32 >> kk)
                != 0)) by (bit_vector)
                requires
                    m == 0xffff_ffffu32 << sh,
                    sh == 32 - b,
                    0 < b <= 32,
                    kk < 32,
            ;
        } else {
            assert(0u32 & (0x8000_0000u32 >> kk) == 0) by (bit_vector);
        }
    }
}

/// The network of an IPv6 address keeps the bits of the prefix and clears the
/// others, so the address lies in its own network.
pub proof fn an_ipv6_address_lies_in_its_network(n: u128, bits: int)
    requires
        0 <= bits <= 128,
    ensures
        same_prefix(IpAddr::V6(keep_v6(n, bits)), IpAddr::V6(n), bits),
        forall|k: int|
            bits <= k < 128 ==> !#[trigger] bit(octets_of(IpAddr::V6(keep_v6(n, bits))), k),
{
    let net = keep_v6(n, bits);
    assert forall|k: int| 0 <= k < 128 implies #[trigger] bit(octets_of(IpAddr::V6(net)), k) == (k
        < bits && bit(octets_of(IpAddr::V6(n)), k)) by {
        lemma_v6_bit(n, k);
        lemma_v6_bit(net, k);
        let b = bits as u128;
        let kk = k as u128;
        if bits > 0 {
            let sh = (128 - b) as u128;
            let m = u128::MAX << sh;
            assert((n & m) & (0x8000_0000_0000_0000_0000_0000_0000_0000u128 >> kk) != 0 <==> (kk < b
                && n & (0x8000_0000_0000_0000_0000_0000_0000_0000u128 >> kk) != 0)) by (bit_vector)
                requires
                    m == 0xffff_ffff_ffff_ffff_ffff_ffff_ffff_ffffu128 << sh,
                    sh == 128 - b,
                    0 < b <= 128,
                    kk < 128,
            ;
        } else {
            assert(0u128 & (0x8000_0000_0000_0000_0000_0000_0000_0000u128 >> kk) == 0)
                by (bit_vector);
        }
    }
}

// -- Private space ------------------------------------------------------------

/// The address lies in RFC1918, carrier-grade NAT, link-local or loopback space;
/// for IPv6, in unique local space (fc00::/7), link-local space (fe80::/10), or
/// it is the loopback address.
pub open spec fn private_space(ip: IpAddr) -> bool {
    match ip {
        IpAddr::V4(n) => {
            let a = n / 0x100_0000;
            let b = n / 0x1_0000 % 0x100;
            ||| a == 10
            ||| a == 172 && 16 <= b <= 31
            ||| a == 192 && b == 168
            ||| a == 127
            ||| a == 169 && b == 254
            ||| a == 100 && 64 <= b < 128
        },
        IpAddr::V6(n) => {
            ||| n / 0x200_0000_0000_0000_0000_0000_0000_0000 == 0x7e
            ||| n / 0x40_0000_0000_0000_0000_0000_0000_0000 == 0x3fa
            ||| n == 1
        },
    }
}

/// The address that a text writes, where an IPv6 address may name a zone behind
/// a percent sign, as in `fe80::1%eth0`.
pub open spec fn zoned_ip_of(s: Seq<char>) -> Option<IpAddr> {
    match text::split_once(s, '%') {
        Some((address, _)) => match ip_of(address) {
            Some(IpAddr::V6(n)) => Some(IpAddr::V6(n)),
            _ => None,
        },
        None => ip_of(s),
    }
}

fn read_zoned_ip(s: &str) -> (out: Option<IpAddr>)
    ensures
        out == zoned_ip_of(s@),
{
    let chars = to_chars(s);
    match cut_once(&chars, '%') {
        Some((address, _)) => match read_ip(&address) {
            Some(IpAddr::V6(n)) => Some(IpAddr::V6(n)),
            _ => None,
        },
        None => read_ip(&chars),
    }
}

/// The text writes an address in private space, in whatever zone.
pub open spec fn private(s: Seq<char>) -> bool {
    match zoned_ip_of(s) {
        Some(ip) => private_space(ip),
        None => false,
    }
}

/// True for RFC1918, CGNAT, link-local and loopback space, however the address
/// is written and whatever zone it names. A text that writes no address is none.
pub fn is_private(ip: &str) -> (r: bool)
    ensures
        r == private(ip@),
{
    match read_zoned_ip(ip) {
        Some(IpAddr::V4(n)) => {
            let a: u32 = n / 0x100_0000;
            let b: u32 = n / 0x1_0000 % 0x100;
            a == 10 || (a == 172 && 16 <= b && b <= 31) || (a == 192 && b == 168) || a == 127 || (a
                == 169 && b == 254) || (a == 100 && 64 <= b && b < 128)
        },
        Some(IpAddr::V6(n)) => n / 0x200_0000_0000_0000_0000_0000_0000_0000 == 0x7e || n
            / 0x40_0000_0000_0000_0000_0000_0000_0000 == 0x3fa || n == 1,
        None => false,
    }
}

// -- Reading back -------------------------------------------------------------

proof fn lemma_short_decimal(n: nat)
    requires
        n <= 255,
    ensures
        octet(text::dec(n)) == Some(n),
        !text::dec(n).contains('.'),
        !text::dec(n).contains(':'),
{
    reveal_with_fuel(text::dec, 3);
    text::a_number_reads_back(n);
    let s = text::dec(n);
    if s.contains('.') {
        let k = choose|k: int| 0 <= k < s.len() && s[k] == '.';
        assert(text::is_digit(s[k]));
    }
    if s.contains(':') {
        let k = choose|k: int| 0 <= k < s.len() && s[k] == ':';
        assert(text::is_digit(s[k]));
    }
}

/// The text of an IPv4 address splits at its dots into the four octets, in
/// decimal, and holds no colon.
pub proof fn an_address_splits_into_octets(n: u32)
    ensures
        text::pieces(v4_text(n), '.') == seq![
            text::dec((n / 0x100_0000) as nat),
            text::dec((n / 0x1_0000 % 0x100) as nat),
            text::dec((n / 0x100 % 0x100) as nat),
            text::dec((n % 0x100) as nat),
        ],
        !v4_text(n).contains(':'),
{
    let a = (n / 0x100_0000) as nat;
    let b = (n / 0x1_0000 % 0x100) as nat;
    let c = (n / 0x100 % 0x100) as nat;
    let d = (n % 0x100) as nat;
    lemma_short_decimal(a);
    lemma_short_decimal(b);
    lemma_short_decimal(c);
    lemma_short_decimal(d);
    let parts = seq![text::dec(a), text::dec(b), text::dec(c), text::dec(d)];
    reveal_strlit(".");
    reveal_with_fuel(text::join, 4);
    assert("."@ =~= seq!['.']);
    assert(parts.drop_last() =~= seq![text::dec(a), text::dec(b), text::dec(c)]);
    assert(parts.drop_last().drop_last() =~= seq![text::dec(a), text::dec(b)]);
    assert(parts.drop_last().drop_last().drop_last() =~= seq![text::dec(a)]);
    assert(v4_text(n) =~= text::join(parts, seq!['.']));
    text::splitting_undoes_joining(parts, '.');
    let s = v4_text(n);
    if s.contains(':') {
        let k = choose|k: int| 0 <= k < s.len() && s[k] == ':';
        text::a_piece_holds_every_character(s, '.', k);
        let j = choose|j: int|
            0 <= j < text::pieces(s, '.').len() && (#[trigger] text::pieces(s, '.')[j]).contains(
                ':',
            );
        assert(parts[j].contains(':'));
    }
}

proof fn lemma_v4_reads_back(n: u32)
    ensures
        v4_of(v4_text(n)) == Some(n),
        !v4_text(n).contains(':'),
{
    let a = (n / 0x100_0000) as nat;
    let b = (n / 0x1_0000 % 0x100) as nat;
    let c = (n / 0x100 % 0x100) as nat;
    let d = (n % 0x100) as nat;
    an_address_splits_into_octets(n);
    lemma_short_decimal(a);
    lemma_short_decimal(b);
    lemma_short_decimal(c);
    lemma_short_decimal(d);
    assert(from_octets(a as int, b as int, c as int, d as int) == n);
}

/// A text with a colon in it writes no IPv4 address.
proof fn lemma_colon_is_no_v4(s: Seq<char>)
    requires
        s.contains(':'),
    ensures
        v4_of(s) is None,
{
    let k = choose|k: int| 0 <= k < s.len() && s[k] == ':';
    text::a_piece_holds_every_character(s, '.', k);
    let p = text::pieces(s, '.');
    let j = choose|j: int| 0 <= j < p.len() && (#[trigger] p[j]).contains(':');
    let m = choose|m: int| 0 <= m < p[j].len() && p[j][m] == ':';
    assert(!text::is_digit(p[j][m]));
    assert(octet(p[j]) is None);
}

/// The texts write these groups, one each.
pub open spec fn writes(parts: Seq<Seq<char>>, g: Seq<u16>) -> bool {
    parts.len() == g.len() && forall|i: int|
        0 <= i < g.len() ==> group(#[trigger] parts[i]) == Some(g[i])
}

proof fn lemma_group_characters(s: Seq<char>)
    requires
        group(s) is Some,
    ensures
        s.len() > 0,
        !s.contains('.'),
        !s.contains(':'),
{
    if s.contains('.') {
        let k = choose|k: int| 0 <= k < s.len() && s[k] == '.';
        assert(text::is_hex(s[k]));
    }
    if s.contains(':') {
        let k = choose|k: int| 0 <= k < s.len() && s[k] == ':';
        assert(text::is_hex(s[k]));
    }
}

proof fn lemma_plain_groups(parts: Seq<Seq<char>>, g: Seq<u16>)
    requires
        writes(parts, g),
    ensures
        plain_groups(parts) == Some(g),
    decreases parts.len(),
{
    if parts.len() > 0 {
        lemma_plain_groups(parts.drop_last(), g.drop_last());
        assert(group(parts[parts.len() - 1]) == Some(g[g.len() - 1]));
        assert(g.drop_last().push(g.last()) =~= g);
    } else {
        assert(g =~= Seq::<u16>::empty());
    }
}

/// Groups with colons between them hold no two colons in a row, and neither
/// begin nor end with one.
proof fn lemma_single_colons(parts: Seq<Seq<char>>, g: Seq<u16>)
    requires
        writes(parts, g),
    ensures
        ({
            let s = text::join(parts, seq![':']);
            &&& parts.len() > 0 ==> s.len() > 0 && s[0] != ':' && s.last() != ':'
            &&& parts.len() > 1 ==> s.contains(':')
            &&& forall|i: int| #![trigger s[i]]
                0 <= i && i + 1 < s.len() && s[i] == ':' ==> s[i + 1] != ':'
        }),
    decreases parts.len(),
{
    let s = text::join(parts, seq![':']);
    if parts.len() > 0 {
        let last = parts.last();
        assert(group(parts[parts.len() - 1]) is Some);
        lemma_group_characters(last);
        assert forall|k: int| 0 <= k < last.len() implies last[k] != ':' by {
            assert(last.contains(last[k]));
        }
        if parts.len() > 1 {
            lemma_single_colons(parts.drop_last(), g.drop_last());
            let front = text::join(parts.drop_last(), seq![':']);
            assert(s == front + seq![':'] + last);
            assert(s[front.len() as int] == ':');
            assert forall|i: int| #![trigger s[i]]
                0 <= i && i + 1 < s.len() && s[i] == ':' implies s[i + 1] != ':' by {
                if i + 1 < front.len() {
                    assert(front[i] == ':');
                    assert(front[i + 1] == s[i + 1]);
                } else if i + 1 == front.len() {
                    assert(front.last() == s[i]);
                } else if i == front.len() {
                    assert(s[i + 1] == last[0]);
                } else {
                    assert(s[i] == last[i - front.len() - 1]);
                }
            }
        }
    }
}

proof fn lemma_chunk(parts: Seq<Seq<char>>, g: Seq<u16>, dotted: bool)
    requires
        writes(parts, g),
    ensures
        chunk(text::join(parts, seq![':']), dotted) == Some(g),
{
    let s = text::join(parts, seq![':']);
    if parts.len() == 0 {
        assert(g =~= Seq::<u16>::empty());
    } else {
        lemma_single_colons(parts, g);
        assert forall|i: int| 0 <= i < parts.len() implies !(#[trigger] parts[i]).contains(':') by {
            lemma_group_characters(parts[i]);
        }
        text::splitting_undoes_joining(parts, ':');
        let last = parts.last();
        assert(group(parts[parts.len() - 1]) is Some);
        lemma_group_characters(last);
        text::splitting_undoes_joining(seq![last], '.');
        lemma_plain_groups(parts, g);
    }
}

proof fn lemma_find_none(s: Seq<char>, needle: Seq<char>, i: int)
    requires
        0 <= i,
        forall|k: int| i <= k ==> !#[trigger] text::stands_at(s, needle, k),
    ensures
        text::find_from(s, needle, i) == -1,
    decreases s.len() + 1 - i,
{
    if i <= s.len() {
        lemma_find_none(s, needle, i + 1);
    }
}

proof fn lemma_find_first(s: Seq<char>, needle: Seq<char>, i: int, at: int)
    requires
        0 <= i <= at,
        text::stands_at(s, needle, at),
        forall|k: int| i <= k < at ==> !#[trigger] text::stands_at(s, needle, k),
    ensures
        text::find_from(s, needle, i) == at,
    decreases at - i,
{
    if i < at {
        lemma_find_first(s, needle, i + 1, at);
    }
}

/// An IPv6 address reads back from its eight groups, however each is written.
pub proof fn eight_groups_read_back(parts: Seq<Seq<char>>, g: Seq<u16>)
    requires
        writes(parts, g),
        g.len() == 8,
    ensures
        v6_of(text::join(parts, ":"@)) == Some(from_groups(g) as u128),
        v4_of(text::join(parts, ":"@)) is None,
{
    reveal_strlit(":");
    reveal_strlit("::");
    assert(":"@ =~= seq![':']);
    let s = text::join(parts, seq![':']);
    lemma_single_colons(parts, g);
    lemma_chunk(parts, g, true);
    assert forall|k: int| 0 <= k implies !#[trigger] text::stands_at(s, "::"@, k) by {
        if text::stands_at(s, "::"@, k) {
            let t = s.subrange(k, k + 2);
            assert(t[0] == s[k] && t[1] == s[k + 1]);
        }
    }
    lemma_find_none(s, "::"@, 0);
    lemma_colon_is_no_v4(s);
}

/// An IPv6 address reads back from the groups around a `::`, which stands for
/// the zeros that are missing, however each group is written.
pub proof fn groups_around_a_gap_read_back(
    front: Seq<Seq<char>>,
    head: Seq<u16>,
    back: Seq<Seq<char>>,
    tail: Seq<u16>,
)
    requires
        writes(front, head),
        writes(back, tail),
        head.len() + tail.len() <= 7,
    ensures
        ({
            let s = text::join(front, ":"@) + "::"@ + text::join(back, ":"@);
            let g = head + zeros(8 - head.len() - tail.len()) + tail;
            v6_of(s) == Some(from_groups(g) as u128) && v4_of(s) is None
        }),
{
    reveal_strlit(":");
    reveal_strlit("::");
    assert(":"@ =~= seq![':']);
    let a = text::join(front, seq![':']);
    let b = text::join(back, seq![':']);
    let s = a + "::"@ + b;
    let at = a.len() as int;
    lemma_single_colons(front, head);
    lemma_chunk(front, head, false);
    lemma_chunk(back, tail, true);
    assert(s.subrange(at, at + 2) =~= "::"@);
    assert forall|k: int| 0 <= k < at implies !#[trigger] text::stands_at(s, "::"@, k) by {
        if text::stands_at(s, "::"@, k) {
            let t = s.subrange(k, k + 2);
            assert(t[0] == s[k] && t[1] == s[k + 1]);
            assert(a[k] == ':');
            if front.len() == 0 {
                assert(a.len() == 0);
            } else if k + 1 == at {
                assert(a.last() == ':');
            } else {
                assert(a[k + 1] == ':');
            }
        }
    }
    lemma_find_first(s, "::"@, 0, at);
    assert(s.take(at) =~= a);
    assert(s.skip(at + 2) =~= b);
    assert(s[at] == ':');
    lemma_colon_is_no_v4(s);
}

proof fn lemma_hex(n: nat)
    ensures
        hex(n).len() >= 1,
        text::all_hex(hex(n)),
        text::hexadecimal(hex(n)) == n,
    decreases n,
{
    reveal_with_fuel(text::hexadecimal, 2);
    let s = hex(n);
    if n >= 16 {
        lemma_hex(n / 16);
        assert(s.drop_last() =~= hex(n / 16));
        assert forall|i: int| 0 <= i < s.len() implies text::is_hex(#[trigger] s[i]) by {
            if i < hex(n / 16).len() {
                assert(text::is_hex(hex(n / 16)[i]));
            }
        }
        assert(text::hex_value(s.last()) == n % 16);
    } else {
        assert(s.drop_last() =~= Seq::<char>::empty());
        assert(text::hex_value(s.last()) == n);
    }
}

proof fn lemma_hex_group(x: u16)
    ensures
        group(hex(x as nat)) == Some(x),
{
    reveal_with_fuel(hex, 4);
    lemma_hex(x as nat);
}

proof fn lemma_group_texts(g: Seq<u16>)
    ensures
        writes(group_texts(g), g),
{
    assert forall|i: int| 0 <= i < g.len() implies group(#[trigger] group_texts(g)[i]) == Some(
        g[i],
    ) by {
        lemma_hex_group(g[i]);
    }
}

/// The groups of an address make up its number.
proof fn lemma_groups_of(n: u128)
    ensures
        groups_of(n).len() == 8,
        from_groups(groups_of(n)) == n,
{
    let g = groups_of(n);
    let (a, b, c, d) = (g[0], g[1], g[2], g[3]);
    let (e, f, h, i) = (g[4], g[5], g[6], g[7]);
    assert(((((((((a as u128) * 65536 + (b as u128)) * 65536 + (c as u128)) * 65536 + (
    d as u128)) * 65536 + (e as u128)) * 65536 + (f as u128)) * 65536 + (h as u128)) * 65536) + (
    i as u128) == n) by (bit_vector)
        requires
            a == (n >> 112u128) as u16,
            b == (n >> 96u128) as u16,
            c == (n >> 80u128) as u16,
            d == (n >> 64u128) as u16,
            e == (n >> 48u128) as u16,
            f == (n >> 32u128) as u16,
            h == (n >> 16u128) as u16,
            i == (n >> 0u128) as u16,
    ;
}

proof fn lemma_zero_run_is_zero(g: Seq<u16>, i: int)
    requires
        0 <= i <= g.len(),
    ensures
        forall|k: int| i <= k < i + zero_run(g, i) ==> g[k] == 0,
    decreases g.len() - i,
{
    if i < g.len() && g[i] == 0 {
        lemma_zero_run_is_zero(g, i + 1);
    }
}

proof fn lemma_longest_run_is_zero(g: Seq<u16>, n: int)
    requires
        0 <= n <= g.len(),
    ensures
        forall|k: int|
            longest_run(g, n).0 <= k < longest_run(g, n).0 + longest_run(g, n).1 ==> g[k] == 0,
    decreases n,
{
    if n > 0 {
        lemma_longest_run_is_zero(g, n - 1);
        lemma_zero_run_is_zero(g, n - 1);
    }
}

/// An IPv4-mapped address reads back from its text.
proof fn lemma_mapped_reads_back(n: u128)
    requires
        n / 0x1_0000_0000 == 0xffff,
    ensures
        ip_of(v6_text(n)) == Some(IpAddr::V6(n)),
{
    let low = (n % 0x1_0000_0000) as u32;
    let v4 = v4_text(low);
    let s = "::ffff:"@ + v4;
    reveal_strlit("::ffff:");
    reveal_strlit("::");
    assert(s.subrange(0, 2) =~= "::"@);
    lemma_find_first(s, "::"@, 0, 0);
    assert(s.take(0) =~= Seq::<char>::empty());
    let ffff = seq!['f', 'f', 'f', 'f'];
    let parts = seq![ffff, v4];
    reveal_with_fuel(text::join, 2);
    assert(parts.drop_last() =~= seq![ffff]);
    let tail = s.skip(2);
    assert(tail =~= text::join(parts, seq![':']));
    lemma_v4_reads_back(low);
    reveal_with_fuel(text::hexadecimal, 5);
    assert(ffff.drop_last() =~= seq!['f', 'f', 'f']);
    assert(ffff.drop_last().drop_last() =~= seq!['f', 'f']);
    assert(ffff.drop_last().drop_last().drop_last() =~= seq!['f']);
    assert(text::hexadecimal(ffff) == 0xffff);
    assert(group(ffff) == Some(0xffffu16));
    lemma_group_characters(ffff);
    text::splitting_undoes_joining(parts, ':');
    lemma_plain_groups(seq![ffff], seq![0xffffu16]);
    let g = seq![0xffffu16, high_half(low), low_half(low)];
    assert(chunk(tail, true) == Some(g)) by {
        assert(seq![0xffffu16].push(high_half(low)).push(low_half(low)) =~= g);
    }
    let all = Seq::<u16>::empty() + zeros(5) + g;
    assert(from_groups(all) == n);
    assert(s[0] == ':');
    lemma_colon_is_no_v4(s);
}

/// Whether an address is private does not depend on how it is written.
pub proof fn private_space_goes_by_the_address(a: Seq<char>, b: Seq<char>)
    requires
        zoned_ip_of(a) == zoned_ip_of(b),
    ensures
        private(a) == private(b),
{
}

/// A zone behind an IPv6 address makes no difference to whether it is private.
pub proof fn a_zone_makes_no_difference(address: Seq<char>, zone: Seq<char>)
    requires
        ip_of(address) matches Some(IpAddr::V6(_)),
        !address.contains('%'),
    ensures
        private(address + seq!['%'] + zone) == private(address),
{
    text::a_split_gives_both_sides(address, '%', zone);
    text::lemma_next_index(address, '%', 0);
}

/// An address reads back from its text.
pub proof fn an_address_reads_back(ip: IpAddr)
    ensures
        ip_of(ip_text(ip)) == Some(ip),
{
    match ip {
        IpAddr::V4(n) => {
            lemma_v4_reads_back(n);
        },
        IpAddr::V6(n) => {
            let g = groups_of(n);
            let gap = longest_run(g, 8);
            lemma_groups_of(n);
            if n / 0x1_0000_0000 == 0xffff {
                lemma_mapped_reads_back(n);
            } else if gap.1 > 1 {
                lemma_longest_run(g, 8);
                lemma_longest_run_is_zero(g, 8);
                let head = g.take(gap.0);
                let tail = g.skip(gap.0 + gap.1);
                lemma_group_texts(head);
                lemma_group_texts(tail);
                groups_around_a_gap_read_back(group_texts(head), head, group_texts(tail), tail);
                assert(head + zeros(8 - head.len() - tail.len()) + tail =~= g);
            } else {
                lemma_group_texts(g);
                eight_groups_read_back(group_texts(g), g);
            }
        },
    }
}

/// A group with all of its four digits, as the kernel log writes it.
pub open spec fn four_digits(x: u16) -> Seq<char> {
    seq![
        hex_char((x / 4096) as int),
        hex_char((x / 256 % 16) as int),
        hex_char((x / 16 % 16) as int),
        hex_char((x % 16) as int),
    ]
}

/// An IPv6 address as the kernel log writes it, fully expanded.
pub open spec fn expanded_text(n: u128) -> Seq<char> {
    text::join(groups_of(n).map_values(|x: u16| four_digits(x)), ":"@)
}

proof fn lemma_four_digits(x: u16)
    ensures
        group(four_digits(x)) == Some(x),
{
    let s = four_digits(x);
    reveal_with_fuel(text::hexadecimal, 5);
    assert(s.drop_last().drop_last().drop_last().drop_last() =~= Seq::<char>::empty());
    assert(text::hex_value(s[0]) == x / 4096);
    assert(text::hex_value(s[1]) == x / 256 % 16);
    assert(text::hex_value(s[2]) == x / 16 % 16);
    assert(text::hex_value(s[3]) == x % 16);
    assert(text::hexadecimal(s) == x);
}

/// The two ways an IPv6 address is written name the same address: expanded, as
/// the kernel log has it, and compressed, as `ip` prints it.
pub proof fn expanded_and_compressed_texts_agree(n: u128)
    ensures
        ip_of(expanded_text(n)) == Some(IpAddr::V6(n)),
        ip_of(expanded_text(n)) == ip_of(ip_text(IpAddr::V6(n))),
{
    let g = groups_of(n);
    let parts = g.map_values(|x: u16| four_digits(x));
    assert forall|i: int| 0 <= i < g.len() implies group(#[trigger] parts[i]) == Some(g[i]) by {
        lemma_four_digits(g[i]);
    }
    lemma_groups_of(n);
    eight_groups_read_back(parts, g);
    an_address_reads_back(IpAddr::V6(n));
}

proof fn lemma_octet_of_dec(n: nat)
    ensures
        n <= 255 ==> octet(text::dec(n)) == Some(n),
        n > 255 ==> octet(text::dec(n)) is None,
{
    text::a_number_reads_back(n);
    if n <= 255 {
        lemma_short_decimal(n);
    }
}

/// An octet is a number from 0 to 255 without leading noughts, and nothing else.
pub proof fn an_octet_is_a_small_number_without_leading_noughts(n: nat, s: Seq<char>)
    ensures
        n <= 255 ==> octet(text::dec(n)) == Some(n),
        n > 255 ==> octet(text::dec(n)) is None,
        s.len() > 0 ==> octet(seq!['0'] + s) is None,
        octet(seq!['+'] + s) is None,
        octet(Seq::empty()) is None,
        octet(s) is Some ==> octet(s).unwrap() <= 255 && 1 <= s.len() <= 3,
{
    lemma_octet_of_dec(n);
    let plus = seq!['+'] + s;
    assert(plus[0] == '+');
    assert(!text::is_digit(plus[0]));
}

/// Four octets with dots between them are an IPv4 address, the first octet the
/// most significant; a text with a number of dots other than three is none.
pub proof fn four_octets_are_an_ipv4_address(parts: Seq<Seq<char>>, a: u8, b: u8, c: u8, d: u8)
    requires
        forall|i: int| 0 <= i < parts.len() ==> !(#[trigger] parts[i]).contains('.'),
        parts.len() > 0,
    ensures
        parts == seq![
            text::dec(a as nat),
            text::dec(b as nat),
            text::dec(c as nat),
            text::dec(d as nat),
        ] ==> v4_of(text::join(parts, "."@)) == Some(
            (16777216 * a + 65536 * b + 256 * c + d) as u32,
        ) && ip_of(text::join(parts, "."@)) == Some(
            IpAddr::V4((16777216 * a + 65536 * b + 256 * c + d) as u32),
        ),
        parts.len() != 4 ==> v4_of(text::join(parts, "."@)) is None,
{
    reveal_strlit(".");
    assert("."@ =~= seq!['.']);
    text::splitting_undoes_joining(parts, '.');
    lemma_octet_of_dec(a as nat);
    lemma_octet_of_dec(b as nat);
    lemma_octet_of_dec(c as nat);
    lemma_octet_of_dec(d as nat);
}

/// A network is an address, a slash and the length of its prefix, of 32 bits at
/// most for IPv4 and 128 for IPv6. An address alone is a network of itself.
pub proof fn a_network_reads_back(address: Seq<char>, ip: IpAddr, len: nat)
    requires
        !address.contains('/'),
        ip_of(address) == Some(ip),
    ensures
        ip is V4 && len <= 32 || ip is V6 && len <= 128 ==> cidr_of(
            address + seq!['/'] + text::dec(len),
        ) == Some((ip, len as u8)),
        ip is V4 && len > 32 || ip is V6 && len > 128 ==> cidr_of(
            address + seq!['/'] + text::dec(len),
        ) is None,
        ip is V4 ==> cidr_of(address) == Some((ip, 32u8)),
        ip is V6 ==> cidr_of(address) == Some((ip, 128u8)),
{
    text::a_split_gives_both_sides(address, '/', text::dec(len));
    text::only_digits_are_a_number(text::dec(len), len, 255);
    text::a_cut_is_at_the_first_separator(address, '/');
    if text::split_once(address, '/') is Some {
        let (h, t) = text::split_once(address, '/').unwrap();
        assert(address[h.len() as int] == '/');
    }
}

/// Private space by its numbers: 10/8, 172.16/12, 192.168/16, 127/8, 169.254/16
/// and 100.64/10, and fc00::/7, fe80::/10 and ::1.
pub proof fn private_space_is_these_ranges(n: u32, m: u128)
    ensures
        private_space(IpAddr::V4(n)) <==> (0x0a00_0000 <= n <= 0x0aff_ffff || 0xac10_0000 <= n
            <= 0xac1f_ffff || 0xc0a8_0000 <= n <= 0xc0a8_ffff || 0x7f00_0000 <= n <= 0x7fff_ffff
            || 0xa9fe_0000 <= n <= 0xa9fe_ffff || 0x6440_0000 <= n <= 0x647f_ffff),
        private_space(IpAddr::V6(m)) <==> (0xfc00_0000_0000_0000_0000_0000_0000_0000 <= m
            <= 0xfdff_ffff_ffff_ffff_ffff_ffff_ffff_ffff
            || 0xfe80_0000_0000_0000_0000_0000_0000_0000 <= m
            <= 0xfebf_ffff_ffff_ffff_ffff_ffff_ffff_ffff || m == 1),
{
}

/// Only an IPv6 address takes a zone.
pub proof fn only_ipv6_takes_a_zone(address: Seq<char>, zone: Seq<char>, n: u32, m: u128)
    requires
        !address.contains('%'),
    ensures
        ip_of(address) == Some(IpAddr::V6(m)) ==> zoned_ip_of(address + seq!['%'] + zone) == Some(
            IpAddr::V6(m),
        ),
        ip_of(address) == Some(IpAddr::V4(n)) ==> zoned_ip_of(address + seq!['%'] + zone) is None,
        ip_of(address) is None ==> zoned_ip_of(address + seq!['%'] + zone) is None,
        zoned_ip_of(address) == ip_of(address),
{
    text::a_split_gives_both_sides(address, '%', zone);
    text::a_cut_is_at_the_first_separator(address, '%');
    if text::split_once(address, '%') is Some {
        let (h, t) = text::split_once(address, '%').unwrap();
        assert(address[h.len() as int] == '%');
    }
}

/// The gap in an IPv6 address is its first longest run of zero groups, and a
/// single one leaves no gap.
pub proof fn the_gap_is_the_first_longest_run(g: Seq<u16>, n: int)
    requires
        0 <= n <= g.len(),
    ensures
        ({
            let (at, len) = longest_run(g, n);
            &&& forall|i: int| 0 <= i < n ==> zero_run(g, i) <= len
            &&& len > 0 ==> 0 <= at < n && zero_run(g, at) == len
            &&& forall|i: int| 0 <= i < at ==> zero_run(g, i) < len
        }),
    decreases n,
{
    if n > 0 {
        the_gap_is_the_first_longest_run(g, n - 1);
    }
}

/// An IPv6 address that stands for an IPv4 one is written with that one's dots;
/// any other has a gap exactly where two zero groups or more stand together.
pub proof fn an_ipv6_text_has_a_gap_for_two_zero_groups(n: u128)
    ensures
        ({
            let g = groups_of(n);
            let (at, len) = longest_run(g, 8);
            let colon = ":"@;
            &&& 0xffff_0000_0000 <= n <= 0xffff_ffff_ffff ==> ip_text(IpAddr::V6(n)) == "::ffff:"@
                + ip_text(IpAddr::V4((n - 0xffff_0000_0000) as u32))
            &&& !(0xffff_0000_0000 <= n <= 0xffff_ffff_ffff) && len >= 2 ==> ip_text(IpAddr::V6(n))
                == text::join(group_texts(g.take(at)), colon) + "::"@ + text::join(
                group_texts(g.skip(at + len)),
                colon,
            )
            &&& !(0xffff_0000_0000 <= n <= 0xffff_ffff_ffff) && len < 2 ==> ip_text(IpAddr::V6(n))
                == text::join(group_texts(g), colon)
        }),
{
    if 0xffff_0000_0000 <= n <= 0xffff_ffff_ffff {
        assert(n / 0x1_0000_0000 == 0xffff);
        assert(n % 0x1_0000_0000 == n - 0xffff_0000_0000);
    } else {
        assert(n / 0x1_0000_0000 != 0xffff);
    }
}

/// The network of an address is written as the address of the network, a slash
/// and the length of the prefix, which no address family exceeds.
pub proof fn a_network_is_written_with_its_prefix(address: Seq<char>, bits: nat, n: u32, m: u128)
    requires
        !address.contains('/'),
    ensures
        ({
            let written = network_text(address + seq!['/'] + text::dec(bits));
            &&& v4_of(address) == Some(n) && bits <= 32 ==> written == Some(
                ip_text(IpAddr::V4(keep_v4(n, bits as int))) + seq!['/'] + text::dec(bits),
            )
            &&& v4_of(address) == Some(n) && bits > 32 ==> written is None
            &&& v4_of(address) is None && v6_of(address) == Some(m) && bits <= 128 ==> written
                == Some(ip_text(IpAddr::V6(keep_v6(m, bits as int))) + seq!['/'] + text::dec(bits))
            &&& v4_of(address) is None && v6_of(address) == Some(m) && bits > 128 ==> written is None
            &&& ip_of(address) is None ==> written is None
        }),
        network_text(address) is None,
{
    text::a_split_gives_both_sides(address, '/', text::dec(bits));
    text::a_cut_is_at_the_first_separator(address, '/');
    if text::split_once(address, '/') is Some {
        let (h, t) = text::split_once(address, '/').unwrap();
        assert(address[h.len() as int] == '/');
    }
    text::only_digits_are_a_number(text::dec(bits), bits, u32::MAX as nat);
    reveal_strlit("/");
    assert("/"@ =~= seq!['/']);
}

/// The special addresses by their numbers.
pub proof fn special_addresses_are_these(n: u32, m: u128)
    ensures
        IpAddr::V4(n).loopback() <==> 0x7f00_0000 <= n <= 0x7fff_ffff,
        IpAddr::V6(m).loopback() <==> m == 1,
        IpAddr::V4(n).multicast() <==> 0xe000_0000 <= n <= 0xefff_ffff,
        IpAddr::V6(m).multicast() <==> m >= 0xff00_0000_0000_0000_0000_0000_0000_0000,
        IpAddr::V4(n).unspecified() <==> n == 0,
        IpAddr::V6(m).unspecified() <==> m == 0,
{
}

/// A group is one to four hexadecimal digits, in either case, and nothing else.
pub proof fn a_group_is_one_to_four_hexadecimal_digits(s: Seq<char>)
    ensures
        s.len() == 0 || s.len() > 4 ==> group(s) is None,
        (exists|i: int|
            0 <= i < s.len() && !('0' <= #[trigger] s[i] <= '9' || 'a' <= s[i] <= 'f' || 'A' <= s[i]
                <= 'F')) ==> group(s) is None,
        1 <= s.len() <= 4 && text::all_hex(s) && text::hexadecimal(s) <= 0xffff ==> group(s) is Some
            && group(s).unwrap() == text::hexadecimal(s),
{
    if exists|i: int|
        0 <= i < s.len() && !('0' <= #[trigger] s[i] <= '9' || 'a' <= s[i] <= 'f' || 'A' <= s[i]
            <= 'F') {
        let i = choose|i: int|
            0 <= i < s.len() && !('0' <= #[trigger] s[i] <= '9' || 'a' <= s[i] <= 'f' || 'A' <= s[i]
                <= 'F');
        assert(!text::is_hex(s[i]));
    }
}

/// The first group of an IPv6 address is the most significant.
pub proof fn the_first_group_is_the_most_significant(g: Seq<u16>)
    ensures
        from_groups(g) == 0x1_0000_0000_0000_0000_0000_0000_0000 * g[0]
            + 0x1_0000_0000_0000_0000_0000_0000 * g[1] + 0x1_0000_0000_0000_0000_0000 * g[2]
            + 0x1_0000_0000_0000_0000 * g[3] + 0x1_0000_0000_0000 * g[4] + 0x1_0000_0000 * g[5]
            + 0x1_0000 * g[6] + g[7],
{
}

/// Groups without a gap are an address only where there are eight of them.
pub proof fn fewer_or_more_than_eight_groups_are_no_address(parts: Seq<Seq<char>>, g: Seq<u16>)
    requires
        writes(parts, g),
        g.len() > 0,
        g.len() != 8,
    ensures
        v6_of(text::join(parts, ":"@)) is None,
{
    reveal_strlit(":");
    reveal_strlit("::");
    assert(":"@ =~= seq![':']);
    let s = text::join(parts, seq![':']);
    lemma_single_colons(parts, g);
    lemma_chunk(parts, g, true);
    assert forall|k: int| 0 <= k implies !#[trigger] text::stands_at(s, "::"@, k) by {
        if text::stands_at(s, "::"@, k) {
            let t = s.subrange(k, k + 2);
            assert(t[0] == s[k] && t[1] == s[k + 1]);
        }
    }
    lemma_find_none(s, "::"@, 0);
}

} // verus!
