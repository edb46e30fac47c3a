//! What the kernel's socket tables and `ss` say about this host's sockets.
//!
//! Two questions are asked of them. Is a local socket bound where a packet was
//! addressed, which is the only evidence available that this host asked for it?
//! And how much of the inbound traffic can an established socket account for,
//! which is the only thing that separates a fast download from a flood?

use vstd::prelude::*;

use crate::addr;
use crate::addr::{parse_ip, IpAddr};
use crate::table;
use crate::table::Table;
use crate::text;
use crate::text::{
    after_prefix, copy_range, hex_digit, spells, is_listed, rcut_once, read_hex, read_unsigned, space,
    split_lines, split_words, text_eq_ignoring_case, to_chars, to_text, trimmed,
};

verus! {

// -- Socket tables ------------------------------------------------------------

/// One row of `/proc/net/udp` or its siblings, as far as it can be read.
pub struct SocketRow {
    pub port: Option<u16>,
    pub local: Option<IpAddr>,
    pub remote: Option<(IpAddr, u16)>,
    pub inode: Option<String>,
}

pub struct RowView {
    pub port: Option<u16>,
    pub local: Option<IpAddr>,
    pub remote: Option<(IpAddr, u16)>,
    pub inode: Option<Seq<char>>,
}

impl View for SocketRow {
    type V = RowView;

    open spec fn view(&self) -> RowView {
        RowView {
            port: self.port,
            local: self.local,
            remote: self.remote,
            inode: match self.inode {
                Some(s) => Some(s@),
                None => None,
            },
        }
    }
}

/// The 32-bit word that eight hexadecimal digits write.
pub open spec fn word_of(s: Seq<char>) -> Option<u32> {
    if text::all_hex(s) {
        match text::unsigned_hex(s, u32::MAX as nat) {
            Some(n) => Some(n as u32),
            None => None,
        }
    } else {
        None
    }
}

/// A word with its bytes in the opposite order: the tables print addresses as
/// machine words, least significant byte first.
pub open spec fn swapped(n: u32) -> u32 {
    addr::from_octets(
        n as int % 256,
        n as int / 256 % 256,
        n as int / 65536 % 256,
        n as int / 16777216,
    ) as u32
}

/// The address that the hexadecimal digits of a table write: eight of them an
/// IPv4 address, thirty-two an IPv6 address as four words.
pub open spec fn table_addr(s: Seq<char>) -> Option<IpAddr> {
    if s.len() == 8 {
        match word_of(s) {
            Some(n) => Some(IpAddr::V4(swapped(n))),
            None => None,
        }
    } else if s.len() == 32 {
        match (
            word_of(s.subrange(0, 8)),
            word_of(s.subrange(8, 16)),
            word_of(s.subrange(16, 24)),
            word_of(s.subrange(24, 32)),
        ) {
            (Some(a), Some(b), Some(c), Some(d)) => Some(
                IpAddr::V6(
                    (((swapped(a) * 0x1_0000_0000 + swapped(b)) * 0x1_0000_0000 + swapped(c))
                        * 0x1_0000_0000 + swapped(d)) as u128,
                ),
            ),
            _ => None,
        }
    } else {
        None
    }
}

/// The port of an endpoint `HEX_ADDR:HEX_PORT`.
pub open spec fn table_port(s: Seq<char>) -> Option<u16> {
    match text::rsplit_once(s, ':') {
        Some((_, port)) => match text::unsigned_hex(port, u16::MAX as nat) {
            Some(n) => Some(n as u16),
            None => None,
        },
        None => None,
    }
}

/// The address of an endpoint `HEX_ADDR:HEX_PORT`.
pub open spec fn table_host(s: Seq<char>) -> Option<IpAddr> {
    match text::rsplit_once(s, ':') {
        Some((host, _)) => table_addr(host),
        None => None,
    }
}

/// What a line of a socket table says: the local endpoint in column 1, the
/// remote one in column 2, the socket's inode in column 9.
pub open spec fn row_of(line: Seq<char>) -> RowView {
    let w = text::words(line);
    RowView {
        port: if w.len() > 1 {
            table_port(w[1])
        } else {
            None
        },
        local: if w.len() > 1 {
            table_host(w[1])
        } else {
            None
        },
        remote: if w.len() > 2 {
            match (table_host(w[2]), table_port(w[2])) {
                (Some(host), Some(port)) => Some((host, port)),
                _ => None,
            }
        } else {
            None
        },
        inode: if w.len() > 9 {
            Some(w[9])
        } else {
            None
        },
    }
}

/// The rows of a table from line `i` on.
pub open spec fn rows_from(lines: Seq<Seq<char>>, i: int) -> Seq<RowView>
    decreases lines.len() - i,
{
    if i < 0 || i >= lines.len() {
        Seq::empty()
    } else {
        seq![row_of(lines[i])] + rows_from(lines, i + 1)
    }
}

/// The rows of a table, which follow one header line; none where the table
/// cannot be read.
pub open spec fn rows_of(content: Option<&str>) -> Seq<RowView> {
    match content {
        Some(t) => rows_from(text::lines(t@), 1),
        None => Seq::empty(),
    }
}

pub open spec fn rows_view(rows: Seq<SocketRow>) -> Seq<RowView> {
    rows.map_values(|r: SocketRow| r@)
}

fn all_hex_digits(v: &Vec<char>) -> (b: bool)
    ensures
        b == text::all_hex(v@),
{
    let mut i: usize = 0;
    while i < v.len()
        invariant
            i <= v.len(),
            forall|k: int| 0 <= k < i ==> text::is_hex(#[trigger] v@[k]),
        decreases v.len() - i,
    {
        if hex_digit(v[i]).is_none() {
            return false;
        }
        i = i + 1;
    }
    true
}

fn read_word(v: &Vec<char>, from: usize) -> (out: Option<u32>)
    requires
        from + 8 <= v.len(),
    ensures
        out == word_of(v@.subrange(from as int, from + 8)),
{
    let digits = copy_range(v, from, from + 8);
    if !all_hex_digits(&digits) {
        return None;
    }
    match read_hex(&digits, u32::MAX as u64) {
        Some(n) => Some(n as u32),
        None => None,
    }
}

fn swap(n: u32) -> (out: u32)
    ensures
        out == swapped(n),
{
    let a: u32 = n % 256;
    let b: u32 = n / 256 % 256;
    let c: u32 = n / 65536 % 256;
    let d: u32 = n / 16777216;
    ((a * 256 + b) * 256 + c) * 256 + d
}

fn read_table_addr(v: &Vec<char>) -> (out: Option<IpAddr>)
    ensures
        out == table_addr(v@),
{
    if v.len() == 8 {
        assert(v@.subrange(0, 8) =~= v@);
        match read_word(v, 0) {
            Some(n) => Some(IpAddr::V4(swap(n))),
            None => None,
        }
    } else if v.len() == 32 {
        match (read_word(v, 0), read_word(v, 8), read_word(v, 16), read_word(v, 24)) {
            (Some(a), Some(b), Some(c), Some(d)) => {
                let hi: u128 = (swap(a) as u128) * 0x1_0000_0000 + (swap(b) as u128);
                let lo: u128 = (swap(c) as u128) * 0x1_0000_0000 + (swap(d) as u128);
                assert(hi <= 0xffff_ffff_ffff_ffff);
                Some(IpAddr::V6(hi * 0x1_0000_0000_0000_0000 + lo))
            },
            _ => None,
        }
    } else {
        None
    }
}

fn read_endpoint(v: &Vec<char>) -> (out: (Option<IpAddr>, Option<u16>))
    ensures
        out.0 == table_host(v@),
        out.1 == table_port(v@),
{
    match rcut_once(v, ':') {
        Some((host, port)) => {
            let read: Option<u16> = match read_hex(&port, u16::MAX as u64) {
                Some(n) => Some(n as u16),
                None => None,
            };
            (read_table_addr(&host), read)
        },
        None => (None, None),
    }
}

fn read_row(line: &Vec<char>) -> (out: SocketRow)
    ensures
        out@ == row_of(line@),
{
    let words = split_words(line);
    let ghost w = text::words(line@);
    assert(forall|k: int| 0 <= k < words@.len() ==> w[k] == (#[trigger] words@[k])@);
    let (local, port): (Option<IpAddr>, Option<u16>) = if words.len() > 1 {
        read_endpoint(&words[1])
    } else {
        (None, None)
    };
    let remote: Option<(IpAddr, u16)> = if words.len() > 2 {
        match read_endpoint(&words[2]) {
            (Some(host), Some(port)) => Some((host, port)),
            _ => None,
        }
    } else {
        None
    };
    let inode: Option<String> = if words.len() > 9 {
        Some(to_text(&words[9]))
    } else {
        None
    };
    SocketRow { port, local, remote, inode }
}

/// The rows of one socket table, or none where it could not be read.
pub fn read_rows(content: Option<&str>) -> (out: Vec<SocketRow>)
    ensures
        rows_view(out@) == rows_of(content),
{
    let mut out: Vec<SocketRow> = Vec::new();
    match content {
        None => {
            assert(rows_view(out@) =~= Seq::<RowView>::empty());
        },
        Some(t) => {
            let lines = split_lines(&to_chars(t));
            let ghost model = text::lines(t@);
            let mut i: usize = 1;
            assert(rows_view(out@) + rows_from(model, 1) =~= rows_of(content));
            while i < lines.len()
                invariant
                    1 <= i,
                    model == text::spelled(lines@),
                    rows_view(out@) + rows_from(model, i as int) == rows_of(content),
                decreases lines.len() - i,
            {
                assert(model[i as int] == lines@[i as int]@);
                let row = read_row(&lines[i]);
                let ghost before = rows_view(out@);
                let ghost rest = rows_from(model, i + 1);
                out.push(row);
                assert(rows_view(out@) =~= before.push(row@));
                assert(rows_view(out@) + rest =~= before + (seq![row@] + rest));
                i = i + 1;
            }
            assert(rows_view(out@) + rows_from(model, i as int) =~= rows_view(out@));
        },
    }
    out
}

/// The socket tables of this host, IPv4 and IPv6 rows together.
pub struct SocketTables {
    pub udp: Vec<SocketRow>,
    pub tcp: Vec<SocketRow>,
}

pub struct TablesView {
    pub udp: Seq<RowView>,
    pub tcp: Seq<RowView>,
}

impl View for SocketTables {
    type V = TablesView;

    open spec fn view(&self) -> TablesView {
        TablesView { udp: rows_view(self.udp@), tcp: rows_view(self.tcp@) }
    }
}

impl TablesView {
    /// The rows of a protocol's sockets; only UDP and TCP have tables.
    pub open spec fn rows(self, proto: Seq<char>) -> Seq<RowView> {
        if text::same_ignoring_case(proto, "UDP"@) {
            self.udp
        } else if text::same_ignoring_case(proto, "TCP"@) {
            self.tcp
        } else {
            Seq::empty()
        }
    }

    /// Some local socket is bound to the port.
    pub open spec fn in_use(self, proto: Seq<char>, port: u16) -> bool {
        exists|i: int|
            0 <= i < self.rows(proto).len() && (#[trigger] self.rows(proto)[i]).port == Some(port)
    }
}

fn join_rows(first: Vec<SocketRow>, second: Vec<SocketRow>) -> (out: Vec<SocketRow>)
    ensures
        rows_view(out@) == rows_view(first@) + rows_view(second@),
{
    let mut out = first;
    let mut rest = second;
    let ghost a = out@;
    out.append(&mut rest);
    assert(rows_view(out@) =~= rows_view(a) + rows_view(second@));
    out
}

impl SocketTables {
    /// The tables of `/proc/net`, each by its text or None where it could not
    /// be read.
    pub fn read(
        udp: Option<&str>,
        udp6: Option<&str>,
        tcp: Option<&str>,
        tcp6: Option<&str>,
    ) -> (out: SocketTables)
        ensures
            out@.udp == rows_of(udp) + rows_of(udp6),
            out@.tcp == rows_of(tcp) + rows_of(tcp6),
    {
        SocketTables {
            udp: join_rows(read_rows(udp), read_rows(udp6)),
            tcp: join_rows(read_rows(tcp), read_rows(tcp6)),
        }
    }

    fn rows(&self, proto: &str) -> (out: Option<&Vec<SocketRow>>)
        ensures
            match out {
                Some(rows) => rows_view(rows@) == self@.rows(proto@),
                None => self@.rows(proto@) == Seq::<RowView>::empty(),
            },
    {
        if text_eq_ignoring_case(proto, "UDP") {
            Some(&self.udp)
        } else if text_eq_ignoring_case(proto, "TCP") {
            Some(&self.tcp)
        } else {
            None
        }
    }
}

/// Is any local socket bound to this port? Answers "should this have been
/// received at all?" without needing root.
pub fn port_in_use(proto: &str, port: u16, tables: &SocketTables) -> (b: bool)
    ensures
        b == tables@.in_use(proto@, port),
{
    match tables.rows(proto) {
        None => false,
        Some(rows) => {
            let ghost all = tables@.rows(proto@);
            let mut i: usize = 0;
            while i < rows.len()
                invariant
                    i <= rows.len(),
                    all == rows_view(rows@),
                    all == tables@.rows(proto@),
                    forall|k: int| 0 <= k < i ==> (#[trigger] all[k]).port != Some(port),
                decreases rows.len() - i,
            {
                assert(all[i as int] == rows@[i as int]@);
                if rows[i].port == Some(port) {
                    return true;
                }
                i = i + 1;
            }
            false
        },
    }
}

// -- Who could have received a packet -----------------------------------------

/// An IPv4-mapped IPv6 address is the IPv4 address it maps.
pub open spec fn canonical(ip: IpAddr) -> IpAddr {
    match ip {
        IpAddr::V6(n) => if n / 0x1_0000_0000 == 0xffff {
            IpAddr::V4((n % 0x1_0000_0000) as u32)
        } else {
            ip
        },
        IpAddr::V4(_) => ip,
    }
}

pub fn canonical_of(ip: IpAddr) -> (out: IpAddr)
    ensures
        out == canonical(ip),
{
    match ip {
        IpAddr::V6(n) => if n / 0x1_0000_0000 == 0xffff {
            IpAddr::V4((n % 0x1_0000_0000) as u32)
        } else {
            ip
        },
        IpAddr::V4(_) => ip,
    }
}

/// A socket bound to `local` takes packets sent to `dst`: it is bound to that
/// very address, or to the wildcard of the same family. Whether `[::]` takes
/// IPv4 traffic too is not visible, and a claim that cannot be checked is no
/// corroboration.
pub open spec fn bound_for(local: IpAddr, dst: IpAddr) -> bool {
    let l = canonical(local);
    let d = canonical(dst);
    l == d || (l.unspecified() && (l is V4) == (d is V4))
}

/// A socket with this remote half takes packets from the sender: it is connected
/// to nobody, or to exactly that sender.
pub open spec fn open_to(remote: (IpAddr, u16), src: Option<IpAddr>, sport: u16) -> bool {
    (remote.0.unspecified() && remote.1 == 0) || (src is Some && canonical(remote.0) == canonical(
        src.unwrap(),
    ) && remote.1 == sport)
}

impl RowView {
    /// The socket could have received a packet of this tuple.
    pub open spec fn receives(
        self,
        src: Seq<char>,
        sport: u16,
        dst: Seq<char>,
        dport: u16,
    ) -> bool {
        &&& self.port == Some(dport)
        &&& self.local is Some
        &&& addr::ip_of(dst) is Some
        &&& bound_for(self.local.unwrap(), addr::ip_of(dst).unwrap())
        &&& self.remote is Some
        &&& open_to(self.remote.unwrap(), addr::ip_of(src), sport)
    }
}

impl TablesView {
    /// Some local socket could have received the packet.
    pub open spec fn solicited(
        self,
        proto: Seq<char>,
        src: Seq<char>,
        sport: u16,
        dst: Seq<char>,
        dport: u16,
    ) -> bool {
        exists|i: int|
            0 <= i < self.rows(proto).len() && (#[trigger] self.rows(proto)[i]).receives(
                src,
                sport,
                dst,
                dport,
            )
    }
}

fn row_receives(
    row: &SocketRow,
    src: Option<IpAddr>,
    sport: u16,
    dst: Option<IpAddr>,
    dport: u16,
) -> (b: bool)
    ensures
        b == (row.port == Some(dport) && row.local is Some && dst is Some && bound_for(
            row.local.unwrap(),
            dst.unwrap(),
        ) && row.remote is Some && open_to(row.remote.unwrap(), src, sport)),
{
    if row.port != Some(dport) {
        return false;
    }
    match (row.local, dst, row.remote) {
        (Some(local), Some(dst), Some(remote)) => {
            let l = canonical_of(local);
            let d = canonical_of(dst);
            let bound: bool = l == d || (l.is_unspecified() && l.is_ipv6() == d.is_ipv6());
            let from_sender: bool = match src {
                Some(src) => canonical_of(remote.0) == canonical_of(src) && remote.1 == sport,
                None => false,
            };
            bound && ((remote.0.is_unspecified() && remote.1 == 0) || from_sender)
        },
        _ => false,
    }
}

/// Is a local socket bound such that it could have received this packet?
///
/// The only evidence available that this host asked for it. The kernel filters
/// delivery on both halves of the tuple, so both have to match.
pub fn solicited_locally(
    proto: &str,
    src: &str,
    sport: u16,
    dst: &str,
    dport: u16,
    tables: &SocketTables,
) -> (b: bool)
    ensures
        b == tables@.solicited(proto@, src@, sport, dst@, dport),
{
    let from = parse_ip(src);
    let to = parse_ip(dst);
    match tables.rows(proto) {
        None => false,
        Some(rows) => {
            let ghost all = tables@.rows(proto@);
            let mut i: usize = 0;
            while i < rows.len()
                invariant
                    i <= rows.len(),
                    all == rows_view(rows@),
                    all == tables@.rows(proto@),
                    from == addr::ip_of(src@),
                    to == addr::ip_of(dst@),
                    forall|k: int|
                        0 <= k < i ==> !(#[trigger] all[k]).receives(src@, sport, dst@, dport),
                decreases rows.len() - i,
            {
                assert(all[i as int] == rows@[i as int]@);
                if row_receives(&rows[i], from, sport, to, dport) {
                    assert(all[i as int].receives(src@, sport, dst@, dport));
                    return true;
                }
                i = i + 1;
            }
            false
        },
    }
}

// -- Who holds a socket -------------------------------------------------------

/// The target of the link under `/proc/<pid>/fd` that stands for a socket.
pub open spec fn socket_link(inode: Seq<char>) -> Seq<char> {
    "socket:["@ + inode + "]"@
}

/// The links of those rows from `i` on that are wanted and have an inode.
pub open spec fn links_from(
    rows: Seq<RowView>,
    wanted: spec_fn(RowView) -> bool,
    i: int,
) -> Seq<Seq<char>>
    decreases rows.len() - i,
{
    if i < 0 || i >= rows.len() {
        Seq::empty()
    } else if wanted(rows[i]) && rows[i].inode is Some {
        seq![socket_link(rows[i].inode.unwrap())] + links_from(rows, wanted, i + 1)
    } else {
        links_from(rows, wanted, i + 1)
    }
}

/// The links of the sockets bound to a port.
pub open spec fn port_links(tables: TablesView, proto: Seq<char>, port: u16) -> Seq<Seq<char>> {
    links_from(tables.rows(proto), |r: RowView| r.port == Some(port), 0)
}

/// The links of the sockets that could have received a packet.
pub open spec fn receiver_links(
    tables: TablesView,
    proto: Seq<char>,
    src: Seq<char>,
    sport: u16,
    dst: Seq<char>,
    dport: u16,
) -> Seq<Seq<char>> {
    links_from(tables.rows(proto), |r: RowView| r.receives(src, sport, dst, dport), 0)
}

fn push_link(out: &mut Vec<String>, inode: &String)
    ensures
        text::texts(final(out)@) == text::texts(old(out)@).push(socket_link(inode@)),
{
    let ghost before = text::texts(out@);
    let mut link: String = "socket:[".to_owned();
    link.append(inode.as_str());
    link.append("]");
    out.push(link);
    assert(text::texts(out@) =~= before.push(link@));
}

/// Links of the sockets bound to `port`, formatted as the fd symlink target they
/// will appear as: `socket:[12345]`.
pub fn socket_inodes(proto: &str, port: u16, tables: &SocketTables) -> (out: Vec<String>)
    ensures
        text::texts(out@) == port_links(tables@, proto@, port),
{
    let mut out: Vec<String> = Vec::new();
    let ghost wanted = |r: RowView| r.port == Some(port);
    assert(text::texts(out@) =~= Seq::<Seq<char>>::empty());
    match tables.rows(proto) {
        None => {},
        Some(rows) => {
            let ghost all = tables@.rows(proto@);
            let mut i: usize = 0;
            assert(text::texts(out@) + links_from(all, wanted, 0) =~= links_from(all, wanted, 0));
            while i < rows.len()
                invariant
                    i <= rows.len(),
                    all == rows_view(rows@),
                    wanted == (|r: RowView| r.port == Some(port)),
                    text::texts(out@) + links_from(all, wanted, i as int) == links_from(
                        all,
                        wanted,
                        0,
                    ),
                decreases rows.len() - i,
            {
                assert(all[i as int] == rows@[i as int]@);
                if rows[i].port == Some(port) {
                    match &rows[i].inode {
                        Some(inode) => {
                            let ghost before = text::texts(out@);
                            let ghost rest = links_from(all, wanted, i + 1);
                            push_link(&mut out, inode);
                            assert(text::texts(out@) + rest =~= before + (seq![
                                socket_link(inode@),
                            ] + rest));
                        },
                        None => {},
                    }
                }
                i = i + 1;
            }
            assert(text::texts(out@) + links_from(all, wanted, i as int) =~= text::texts(out@));
        },
    }
    out
}

fn receiver_inodes(
    proto: &str,
    src: &str,
    sport: u16,
    dst: &str,
    dport: u16,
    tables: &SocketTables,
) -> (out: Vec<String>)
    ensures
        text::texts(out@) == receiver_links(tables@, proto@, src@, sport, dst@, dport),
{
    let from = parse_ip(src);
    let to = parse_ip(dst);
    let mut out: Vec<String> = Vec::new();
    let ghost wanted = |r: RowView| r.receives(src@, sport, dst@, dport);
    assert(text::texts(out@) =~= Seq::<Seq<char>>::empty());
    match tables.rows(proto) {
        None => {},
        Some(rows) => {
            let ghost all = tables@.rows(proto@);
            let mut i: usize = 0;
            assert(text::texts(out@) + links_from(all, wanted, 0) =~= links_from(all, wanted, 0));
            while i < rows.len()
                invariant
                    i <= rows.len(),
                    all == rows_view(rows@),
                    wanted == (|r: RowView| r.receives(src@, sport, dst@, dport)),
                    from == addr::ip_of(src@),
                    to == addr::ip_of(dst@),
                    text::texts(out@) + links_from(all, wanted, i as int) == links_from(
                        all,
                        wanted,
                        0,
                    ),
                decreases rows.len() - i,
            {
                assert(all[i as int] == rows@[i as int]@);
                if row_receives(&rows[i], from, sport, to, dport) {
                    match &rows[i].inode {
                        Some(inode) => {
                            let ghost before = text::texts(out@);
                            let ghost rest = links_from(all, wanted, i + 1);
                            push_link(&mut out, inode);
                            assert(text::texts(out@) + rest =~= before + (seq![
                                socket_link(inode@),
                            ] + rest));
                        },
                        None => {},
                    }
                }
                i = i + 1;
            }
            assert(text::texts(out@) + links_from(all, wanted, i as int) =~= text::texts(out@));
        },
    }
    out
}

/// An entry of `/proc`: its name, the targets of its open files where they can
/// be read, and its command where that can be read.
pub struct Process {
    pub name: String,
    pub targets: Vec<String>,
    pub comm: Option<String>,
}

pub struct ProcessView {
    pub name: Seq<char>,
    pub targets: Seq<Seq<char>>,
    pub comm: Option<Seq<char>>,
}

impl View for Process {
    type V = ProcessView;

    open spec fn view(&self) -> ProcessView {
        ProcessView {
            name: self.name@,
            targets: text::texts(self.targets@),
            comm: match self.comm {
                Some(s) => Some(s@),
                None => None,
            },
        }
    }
}

pub open spec fn processes_view(v: Seq<Process>) -> Seq<ProcessView> {
    v.map_values(|p: Process| p@)
}

impl ProcessView {
    /// Only a directory named by digits is a process.
    pub open spec fn is_process(self) -> bool {
        self.name.len() > 0 && text::all_digits(self.name)
    }

    pub open spec fn holds(self, links: Seq<Seq<char>>) -> bool {
        exists|i: int|
            0 <= i < self.targets.len() && links.contains(#[trigger] self.targets[i])
    }

    /// The command, without the space around it; none where nothing is left.
    pub open spec fn command(self) -> Option<Seq<char>> {
        match self.comm {
            Some(c) => if text::trim(c).len() > 0 {
                Some(text::trim(c))
            } else {
                None
            },
            None => None,
        }
    }
}

/// The command of the first process from `i` on that holds one of the links.
pub open spec fn holder_from(
    processes: Seq<ProcessView>,
    links: Seq<Seq<char>>,
    i: int,
) -> Option<Seq<char>>
    decreases processes.len() - i,
{
    if i < 0 || i >= processes.len() {
        None
    } else if processes[i].is_process() && processes[i].holds(links) {
        processes[i].command()
    } else {
        holder_from(processes, links, i + 1)
    }
}

fn all_decimal_digits(v: &Vec<char>) -> (b: bool)
    ensures
        b == text::all_digits(v@),
{
    let mut i: usize = 0;
    while i < v.len()
        invariant
            i <= v.len(),
            forall|k: int| 0 <= k < i ==> text::is_digit(#[trigger] v@[k]),
        decreases v.len() - i,
    {
        if !text::digit(v[i]) {
            return false;
        }
        i = i + 1;
    }
    true
}

fn process_holds(process: &Process, links: &Vec<String>) -> (b: bool)
    ensures
        b == process@.holds(text::texts(links@)),
{
    let ghost all = text::texts(process.targets@);
    let mut i: usize = 0;
    while i < process.targets.len()
        invariant
            i <= process.targets.len(),
            all == text::texts(process.targets@),
            forall|k: int| 0 <= k < i ==> !text::texts(links@).contains(#[trigger] all[k]),
        decreases process.targets.len() - i,
    {
        assert(all[i as int] == process.targets@[i as int]@);
        if is_listed(links, process.targets[i].as_str()) {
            assert(text::texts(links@).contains(process@.targets[i as int]));
            return true;
        }
        i = i + 1;
    }
    false
}

/// The command of the first process with one of these sockets open. A socket
/// shared across forked children resolves to whichever comes first; they share
/// a command name, and the command name is the whole answer.
pub fn process_holding(links: &Vec<String>, processes: &Vec<Process>) -> (out: Option<String>)
    ensures
        match out {
            Some(c) => holder_from(processes_view(processes@), text::texts(links@), 0) == Some(c@),
            None => holder_from(processes_view(processes@), text::texts(links@), 0) is None,
        },
{
    let ghost all = processes_view(processes@);
    let mut i: usize = 0;
    while i < processes.len()
        invariant
            i <= processes.len(),
            all == processes_view(processes@),
            holder_from(all, text::texts(links@), 0) == holder_from(
                all,
                text::texts(links@),
                i as int,
            ),
        decreases processes.len() - i,
    {
        assert(all[i as int] == processes@[i as int]@);
        let name = to_chars(processes[i].name.as_str());
        if name.len() > 0 && all_decimal_digits(&name) && process_holds(&processes[i], links) {
            return match &processes[i].comm {
                Some(c) => {
                    let command = trimmed(&to_chars(c.as_str()));
                    if command.len() > 0 {
                        Some(to_text(&command))
                    } else {
                        None
                    }
                },
                None => None,
            };
        }
        i = i + 1;
    }
    None
}

/// The command holding the socket that a packet was addressed to, when one
/// still is; none where no socket could have received it.
pub fn asker(
    proto: &str,
    src: &str,
    sport: u16,
    dst: &str,
    dport: u16,
    tables: &SocketTables,
    processes: &Vec<Process>,
) -> (out: Option<String>)
    ensures
        ({
            let links = receiver_links(tables@, proto@, src@, sport, dst@, dport);
            let found = holder_from(processes_view(processes@), links, 0);
            match out {
                Some(c) => links.len() > 0 && found == Some(c@),
                None => links.len() == 0 || found is None,
            }
        }),
{
    let links = receiver_inodes(proto, src, sport, dst, dport, tables);
    assert(text::texts(links@).len() == links@.len());
    if links.len() == 0 {
        return None;
    }
    process_holding(&links, processes)
}

// -- Established sockets ------------------------------------------------------

/// The text behind a name in the words from `i` on: the first word that begins
/// with the name decides.
pub open spec fn named_field(words: Seq<Seq<char>>, name: Seq<char>, i: int) -> Option<Seq<char>>
    decreases words.len() - i,
{
    if i < 0 || i >= words.len() {
        None
    } else if text::begins(words[i], name) {
        Some(words[i].skip(name.len() as int))
    } else {
        named_field(words, name, i + 1)
    }
}

/// The number behind a name, as in `bytes_received:29619`.
pub open spec fn number_field(line: Seq<char>, name: Seq<char>) -> Option<nat> {
    match named_field(text::words(line), name, 0) {
        Some(v) => text::unsigned(v, u64::MAX as nat),
        None => None,
    }
}

/// Pull `name:<digits>` out of a whitespace-separated info line.
pub fn field_value(line: &Vec<char>, name: &str) -> (out: Option<u64>)
    ensures
        match out {
            Some(n) => number_field(line@, name@) == Some(n as nat),
            None => number_field(line@, name@) is None,
        },
{
    let words = split_words(line);
    let ghost w = text::words(line@);
    let mut i: usize = 0;
    while i < words.len()
        invariant
            i <= words.len(),
            w == text::spelled(words@),
            named_field(w, name@, 0) == named_field(w, name@, i as int),
            w == text::words(line@),
        decreases words.len() - i,
    {
        assert(w[i as int] == words@[i as int]@);
        match after_prefix(&words[i], name) {
            Some(rest) => {
                return read_unsigned(&rest, u64::MAX);
            },
            None => {},
        }
        i = i + 1;
    }
    None
}

/// What `ss -tin` has said up to some line: the bytes each established socket
/// has received, keyed by its local and peer endpoints, and the socket whose
/// info line is still to come.
pub struct Listing {
    pub received: Map<Seq<char>, u64>,
    pub current: Option<Seq<char>>,
}

impl Listing {
    /// One more line. A socket line is not indented: State, Recv-Q, Send-Q,
    /// Local, Peer. The indented line after it is its info line.
    pub open spec fn take_line(self, line: Seq<char>) -> Listing {
        if line.len() > 0 && text::is_space(line[0]) {
            match (self.current, number_field(line, "bytes_received:"@)) {
                (Some(key), Some(n)) => Listing {
                    received: self.received.insert(key, n as u64),
                    current: None,
                },
                _ => Listing { received: self.received, current: None },
            }
        } else {
            let w = text::words(line);
            Listing {
                received: self.received,
                current: if w.len() > 4 && w[0] == "ESTAB"@ {
                    Some(w[3] + " "@ + w[4])
                } else {
                    None
                },
            }
        }
    }

    pub open spec fn of_lines(lines: Seq<Seq<char>>, n: int) -> Listing
        decreases n,
    {
        if n <= 0 {
            Listing { received: Map::empty(), current: None }
        } else {
            Listing::of_lines(lines, n - 1).take_line(lines[n - 1])
        }
    }
}

/// The bytes each established socket has received, by the output of `ss -tin`.
pub open spec fn received_of(output: Seq<char>) -> Map<Seq<char>, u64> {
    Listing::of_lines(text::lines(output), text::lines(output).len() as int).received
}

/// Bytes each established TCP socket has received, keyed by `local peer`, from
/// the output of `ss -tin`; None where it could not be run, which is different
/// from no socket reading anything.
pub fn read_received(output: Option<&str>) -> (out: Option<Table<u64>>)
    ensures
        match (output, out) {
            (Some(t), Some(received)) => received.wf() && received@ == received_of(t@),
            (None, None) => true,
            _ => false,
        },
{
    let t = match output {
        Some(t) => t,
        None => {
            return None;
        },
    };
    let lines = split_lines(&to_chars(t));
    let ghost model = text::lines(t@);
    let mut received: Table<u64> = Table::new();
    let mut current: Option<String> = None;
    let mut i: usize = 0;
    while i < lines.len()
        invariant
            i <= lines.len(),
            model == text::spelled(lines@),
            received.wf(),
            received@ == Listing::of_lines(model, i as int).received,
            Listing::of_lines(model, i as int).current == match current {
                Some(key) => Some(key@),
                None => None,
            },
        decreases lines.len() - i,
    {
        assert(model[i as int] == lines@[i as int]@);
        let line = &lines[i];
        if line.len() > 0 && space(line[0]) {
            match (current, field_value(line, "bytes_received:")) {
                (Some(key), Some(n)) => {
                    received.put(key, n);
                },
                _ => {},
            }
            current = None;
        } else {
            let words = split_words(line);
            let ghost w = text::words(line@);
            assert(forall|k: int| 0 <= k < words@.len() ==> w[k] == (#[trigger] words@[k])@);
            if words.len() > 4 && spells(&words[0], "ESTAB") {
                let mut key = to_text(&words[3]);
                key.append(" ");
                key.append(to_text(&words[4]).as_str());
                current = Some(key);
            } else {
                current = None;
            }
        }
        i = i + 1;
    }
    Some(received)
}

/// How far a counter has moved; nothing where it moved backwards.
pub open spec fn advance(earlier: u64, later: u64) -> nat {
    if later >= earlier {
        (later - earlier) as nat
    } else {
        0
    }
}

/// What the entries from `i` on have received since the first sample.
pub open spec fn gained_from(
    first: Map<Seq<char>, u64>,
    second: Seq<(String, u64)>,
    i: int,
) -> nat
    decreases second.len() - i,
{
    if i < 0 || i >= second.len() {
        0
    } else {
        let rest = gained_from(first, second, i + 1);
        if first.dom().contains(second[i].0@) {
            rest + advance(first[second[i].0@], second[i].1)
        } else {
            rest
        }
    }
}

/// Bytes that sockets present in both samples received in between.
///
/// A socket that opened or closed in between contributes nothing, which biases
/// the total low, and low is the safe direction: undercounting what the sockets
/// explain means erring toward raising the alert.
pub fn received_between(first: &Table<u64>, second: &Table<u64>) -> (bytes: u128)
    ensures
        bytes == gained_from(first@, second.entries@, 0),
{
    let mut bytes: u128 = 0;
    let mut i: usize = second.entries.len();
    while i > 0
        invariant
            i <= second.entries.len(),
            bytes == gained_from(first@, second.entries@, i as int),
            bytes <= (second.entries.len() - i) * u64::MAX,
        decreases i,
    {
        i = i - 1;
        assert((second.entries.len() - i) * u64::MAX == (second.entries.len() - i - 1) * u64::MAX
            + u64::MAX) by (nonlinear_arith);
        assert((second.entries.len() - i) * u64::MAX <= 0xffff_ffff_ffff_ffff * u64::MAX)
            by (nonlinear_arith)
            requires
                second.entries.len() - i <= 0xffff_ffff_ffff_ffff,
        ;
        match first.get(second.entries[i].0.as_str()) {
            Some(earlier) => {
                let later: u64 = second.entries[i].1;
                if later >= *earlier {
                    bytes = bytes + (later - *earlier) as u128;
                }
            },
            None => {},
        }
    }
    bytes
}

// -- Laws ---------------------------------------------------------------------

/// A socket bound to a loopback address vouches for no packet sent to another
/// address, whatever its port.
pub proof fn a_loopback_socket_vouches_for_no_lan_packet(
    row: RowView,
    src: Seq<char>,
    sport: u16,
    dst: Seq<char>,
    dport: u16,
)
    requires
        row.local is Some,
        canonical(row.local.unwrap()).loopback(),
        addr::ip_of(dst) is Some,
        !canonical(addr::ip_of(dst).unwrap()).loopback(),
    ensures
        !row.receives(src, sport, dst, dport),
{
}

/// A wildcard socket vouches for packets of its own family only.
pub proof fn a_wildcard_vouches_only_within_its_family(local: IpAddr, dst: IpAddr)
    requires
        canonical(local).unspecified(),
        bound_for(local, dst),
    ensures
        (canonical(local) is V4) == (canonical(dst) is V4),
{
}

/// A socket connected to somebody vouches only for that very sender.
pub proof fn a_connected_socket_vouches_only_for_its_peer(
    row: RowView,
    src: Seq<char>,
    sport: u16,
    dst: Seq<char>,
    dport: u16,
)
    requires
        row.receives(src, sport, dst, dport),
        !(row.remote.unwrap().0.unspecified() && row.remote.unwrap().1 == 0),
    ensures
        addr::ip_of(src) is Some,
        canonical(row.remote.unwrap().0) == canonical(addr::ip_of(src).unwrap()),
        row.remote.unwrap().1 == sport,
{
}

/// A socket that could have received a packet also occupies its port.
pub proof fn a_solicited_port_is_in_use(
    tables: TablesView,
    proto: Seq<char>,
    src: Seq<char>,
    sport: u16,
    dst: Seq<char>,
    dport: u16,
)
    requires
        tables.solicited(proto, src, sport, dst, dport),
    ensures
        tables.in_use(proto, dport),
{
}

proof fn lemma_new_socket(
    first: Map<Seq<char>, u64>,
    second: Seq<(String, u64)>,
    e: (String, u64),
    i: int,
)
    requires
        0 <= i <= second.len(),
        !first.dom().contains(e.0@),
    ensures
        gained_from(first, second.push(e), i) == gained_from(first, second, i),
    decreases second.len() - i,
{
    if i < second.len() {
        lemma_new_socket(first, second, e, i + 1);
    } else {
        assert(gained_from(first, second.push(e), i + 1) == 0);
    }
}

/// Only sockets present in both samples count: one that is new in the second
/// sample adds nothing, however much it has received.
pub proof fn a_new_socket_contributes_nothing(
    first: Map<Seq<char>, u64>,
    second: Seq<(String, u64)>,
    e: (String, u64),
)
    requires
        !first.dom().contains(e.0@),
    ensures
        gained_from(first, second.push(e), 0) == gained_from(first, second, 0),
{
    lemma_new_socket(first, second, e, 0);
}

/// A protocol's name is TCP, in any ASCII case.
pub open spec fn spelled_tcp(proto: Seq<char>) -> bool {
    proto.len() == 3 && (proto[0] == 't' || proto[0] == 'T') && (proto[1] == 'c' || proto[1] == 'C')
        && (proto[2] == 'p' || proto[2] == 'P')
}

/// A protocol's name is UDP, in any ASCII case.
pub open spec fn spelled_udp(proto: Seq<char>) -> bool {
    proto.len() == 3 && (proto[0] == 'u' || proto[0] == 'U') && (proto[1] == 'd' || proto[1] == 'D')
        && (proto[2] == 'p' || proto[2] == 'P')
}

pub proof fn lemma_spelled(proto: Seq<char>)
    ensures
        text::same_ignoring_case(proto, "TCP"@) <==> spelled_tcp(proto),
        text::same_ignoring_case(proto, "UDP"@) <==> spelled_udp(proto),
{
    reveal_strlit("TCP");
    reveal_strlit("UDP");
    text::case_is_ignored_letter_by_letter(proto, "TCP"@);
    text::case_is_ignored_letter_by_letter(proto, "UDP"@);
    if proto.len() == 3 {
        assert(text::same_letter(proto[0], 'T') <==> proto[0] == 'T' || proto[0] == 't');
        assert(text::same_letter(proto[1], 'C') <==> proto[1] == 'C' || proto[1] == 'c');
        assert(text::same_letter(proto[2], 'P') <==> proto[2] == 'P' || proto[2] == 'p');
        assert(text::same_letter(proto[0], 'U') <==> proto[0] == 'U' || proto[0] == 'u');
        assert(text::same_letter(proto[1], 'D') <==> proto[1] == 'D' || proto[1] == 'd');
        if text::same_ignoring_case(proto, "TCP"@) {
            assert(text::same_letter(proto[0], "TCP"@[0]));
            assert(text::same_letter(proto[1], "TCP"@[1]));
            assert(text::same_letter(proto[2], "TCP"@[2]));
        }
        if text::same_ignoring_case(proto, "UDP"@) {
            assert(text::same_letter(proto[0], "UDP"@[0]));
            assert(text::same_letter(proto[1], "UDP"@[1]));
            assert(text::same_letter(proto[2], "UDP"@[2]));
        }
    }
}

/// A port of TCP, in any case, is in use exactly where a row of the IPv4 or of
/// the IPv6 table of TCP has it, and a port of UDP where a row of one of the two
/// tables of UDP has it. No port of another protocol is in use.
pub proof fn a_port_is_in_use_where_a_row_of_its_protocol_has_it(
    tables: TablesView,
    udp: Seq<RowView>,
    udp6: Seq<RowView>,
    tcp: Seq<RowView>,
    tcp6: Seq<RowView>,
    proto: Seq<char>,
    port: u16,
)
    requires
        tables.udp == udp + udp6,
        tables.tcp == tcp + tcp6,
    ensures
        spelled_tcp(proto) ==> (tables.in_use(proto, port) <==> (exists|i: int|
            0 <= i < tcp.len() && (#[trigger] tcp[i]).port == Some(port)) || (exists|i: int|
            0 <= i < tcp6.len() && (#[trigger] tcp6[i]).port == Some(port))),
        spelled_udp(proto) ==> (tables.in_use(proto, port) <==> (exists|i: int|
            0 <= i < udp.len() && (#[trigger] udp[i]).port == Some(port)) || (exists|i: int|
            0 <= i < udp6.len() && (#[trigger] udp6[i]).port == Some(port))),
        !spelled_tcp(proto) && !spelled_udp(proto) ==> !tables.in_use(proto, port),
{
    lemma_spelled(proto);
    if spelled_tcp(proto) {
        assert(tables.rows(proto) == tcp + tcp6);
        lemma_in_either(tcp, tcp6, port);
    }
    if spelled_udp(proto) {
        assert(tables.rows(proto) == udp + udp6);
        lemma_in_either(udp, udp6, port);
    }
}

proof fn lemma_in_either(a: Seq<RowView>, b: Seq<RowView>, port: u16)
    ensures
        (exists|i: int| 0 <= i < (a + b).len() && (#[trigger] (a + b)[i]).port == Some(port))
            <==> (exists|i: int| 0 <= i < a.len() && (#[trigger] a[i]).port == Some(port)) || (
        exists|i: int| 0 <= i < b.len() && (#[trigger] b[i]).port == Some(port)),
{
    let all = a + b;
    if exists|i: int| 0 <= i < all.len() && (#[trigger] all[i]).port == Some(port) {
        let i = choose|i: int| 0 <= i < all.len() && (#[trigger] all[i]).port == Some(port);
        if i < a.len() {
            assert(a[i] == all[i]);
        } else {
            assert(b[i - a.len()] == all[i]);
        }
    }
    if exists|i: int| 0 <= i < a.len() && (#[trigger] a[i]).port == Some(port) {
        let i = choose|i: int| 0 <= i < a.len() && (#[trigger] a[i]).port == Some(port);
        assert(all[i] == a[i]);
    }
    if exists|i: int| 0 <= i < b.len() && (#[trigger] b[i]).port == Some(port) {
        let i = choose|i: int| 0 <= i < b.len() && (#[trigger] b[i]).port == Some(port);
        assert(all[a.len() + i] == b[i]);
    }
}

/// The rows of a protocol are those of its own tables: a packet is solicited
/// exactly where a row of them receives it.
pub proof fn a_packet_is_solicited_by_a_row_of_its_protocol(
    tables: TablesView,
    proto: Seq<char>,
    src: Seq<char>,
    sport: u16,
    dst: Seq<char>,
    dport: u16,
)
    ensures
        spelled_tcp(proto) ==> (tables.solicited(proto, src, sport, dst, dport) <==> exists|i: int|
            0 <= i < tables.tcp.len() && (#[trigger] tables.tcp[i]).receives(
                src,
                sport,
                dst,
                dport,
            )),
        spelled_udp(proto) ==> (tables.solicited(proto, src, sport, dst, dport) <==> exists|i: int|
            0 <= i < tables.udp.len() && (#[trigger] tables.udp[i]).receives(
                src,
                sport,
                dst,
                dport,
            )),
        !spelled_tcp(proto) && !spelled_udp(proto) ==> !tables.solicited(
            proto,
            src,
            sport,
            dst,
            dport,
        ),
{
    lemma_spelled(proto);
    let rows = tables.rows(proto);
    assert(spelled_tcp(proto) ==> rows == tables.tcp);
    assert(spelled_udp(proto) ==> rows == tables.udp);
    if tables.solicited(proto, src, sport, dst, dport) {
        let i = choose|i: int|
            0 <= i < tables.rows(proto).len() && (#[trigger] tables.rows(proto)[i]).receives(
                src,
                sport,
                dst,
                dport,
            );
        assert(spelled_tcp(proto) ==> tables.tcp[i].receives(src, sport, dst, dport));
        assert(spelled_udp(proto) ==> tables.udp[i].receives(src, sport, dst, dport));
    } else {
        assert forall|i: int| 0 <= i < rows.len() implies !(#[trigger] rows[i]).receives(
            src,
            sport,
            dst,
            dport,
        ) by {
            assert(tables.rows(proto)[i] == rows[i]);
        }
    }
}

proof fn lemma_row(lines: Seq<Seq<char>>, i: int, k: int)
    requires
        0 <= i <= lines.len(),
    ensures
        rows_from(lines, i).len() == lines.len() - i,
        i <= k < lines.len() ==> rows_from(lines, i)[k - i] == row_of(lines[k]),
    decreases lines.len() - i,
{
    if i < lines.len() {
        lemma_row(lines, i + 1, k);
        let rest = rows_from(lines, i + 1);
        let all = rows_from(lines, i);
        assert(all == seq![row_of(lines[i])] + rest);
        if i < k < lines.len() {
            assert(all[k - i] == rest[k - i - 1]);
        }
    }
}

/// Each line behind the first is a row of the table, in the order of the lines.
pub proof fn every_line_but_the_header_is_a_row(content: &str)
    ensures
        text::lines(content@).len() == 0 ==> rows_of(Some(content)).len() == 0,
        text::lines(content@).len() > 0 ==> rows_of(Some(content)).len() == text::lines(
            content@,
        ).len() - 1,
        forall|k: int|
            0 < k < text::lines(content@).len() ==> rows_of(Some(content))[k - 1] == row_of(
                #[trigger] text::lines(content@)[k],
            ),
        rows_of(None).len() == 0,
{
    let lines = text::lines(content@);
    if lines.len() > 0 {
        lemma_row(lines, 1, 1);
        assert forall|k: int| 0 < k < lines.len() implies rows_of(Some(content))[k - 1] == row_of(
            #[trigger] lines[k],
        ) by {
            lemma_row(lines, 1, k);
        }
    }
}

/// The capital hexadecimal digit of a number below sixteen.
pub open spec fn table_digit(n: nat) -> char {
    if n < 10 {
        ('0' as u32 + n) as char
    } else {
        ('A' as u32 + n - 10) as char
    }
}

/// A number in a given count of hexadecimal digits.
pub open spec fn hex_text(n: nat, digits: nat) -> Seq<char>
    decreases digits,
{
    if digits == 0 {
        Seq::empty()
    } else {
        hex_text(n / 16, (digits - 1) as nat).push(table_digit(n % 16))
    }
}

/// Sixteen to a power.
pub open spec fn sixteens(digits: nat) -> nat
    decreases digits,
{
    if digits == 0 {
        1
    } else {
        16 * sixteens((digits - 1) as nat)
    }
}

proof fn lemma_hex_text(n: nat, digits: nat)
    requires
        n < sixteens(digits),
    ensures
        hex_text(n, digits).len() == digits,
        text::all_hex(hex_text(n, digits)),
        text::hexadecimal(hex_text(n, digits)) == n,
        !hex_text(n, digits).contains(':'),
        forall|i: int| 0 <= i < digits ==> !text::is_space(#[trigger] hex_text(n, digits)[i]),
    decreases digits,
{
    let all = hex_text(n, digits);
    if digits > 0 {
        let less = (digits - 1) as nat;
        lemma_hex_text(n / 16, less);
        let rest = hex_text(n / 16, less);
        let c = table_digit(n % 16);
        assert(all.drop_last() =~= rest);
        assert(all == rest.push(c));
        text::a_hexadecimal_number_is_read_digit_by_digit(rest, c, 0);
        assert(text::hexadecimal(seq![c]) == n % 16);
        assert forall|i: int| 0 <= i < all.len() implies text::is_hex(#[trigger] all[i]) && all[i]
            != ':' && !text::is_space(all[i]) by {
            if i < rest.len() {
                assert(all[i] == rest[i]);
                assert(rest.contains(rest[i]));
            }
        }
    }
}

proof fn lemma_sixteens()
    ensures
        sixteens(4) == 65536,
        sixteens(8) == 0x1_0000_0000,
{
    reveal_with_fuel(sixteens, 9);
}

proof fn lemma_word_reads(n: nat)
    requires
        n < 0x1_0000_0000,
    ensures
        word_of(hex_text(n, 8)) == Some(n as u32),
{
    lemma_sixteens();
    lemma_hex_text(n, 8);
    text::a_hexadecimal_number_is_read_digit_by_digit(hex_text(n, 8), '0', u32::MAX as nat);
}

proof fn lemma_swapped(a: u8, b: u8, c: u8, d: u8)
    ensures
        swapped((a + 256 * b + 65536 * c + 16777216 * d) as u32) == 16777216 * a + 65536 * b + 256
            * c + d,
{
    let n = a + 256 * b + 65536 * c + 16777216 * d;
    assert(n % 256 == a && n / 256 % 256 == b && n / 65536 % 256 == c && n / 16777216 == d);
}

/// An IPv4 address stands in the table with its octets in reverse, two digits
/// each, and reads back as the address.
pub proof fn an_ipv4_address_of_the_table_reads_back(a: u8, b: u8, c: u8, d: u8)
    ensures
        table_addr(hex_text((a + 256 * b + 65536 * c + 16777216 * d) as nat, 8)) == Some(
            IpAddr::V4((16777216 * a + 65536 * b + 256 * c + d) as u32),
        ),
{
    let n = (a + 256 * b + 65536 * c + 16777216 * d) as nat;
    lemma_word_reads(n);
    lemma_sixteens();
    lemma_hex_text(n, 8);
    lemma_swapped(a, b, c, d);
}

/// An IPv6 address stands in the table as four words, each with its octets in
/// reverse, and reads back as the address.
pub proof fn an_ipv6_address_of_the_table_reads_back(w: Seq<nat>, o: Seq<u8>)
    requires
        w.len() == 4,
        o.len() == 16,
        forall|i: int|
            0 <= i < 4 ==> #[trigger] w[i] == o[4 * i] + 256 * o[4 * i + 1] + 65536 * o[4 * i + 2]
                + 16777216 * o[4 * i + 3],
    ensures
        table_addr(hex_text(w[0], 8) + hex_text(w[1], 8) + hex_text(w[2], 8) + hex_text(w[3], 8))
            == Some(
            IpAddr::V6(
                ((((16777216 * o[0] + 65536 * o[1] + 256 * o[2] + o[3]) * 0x1_0000_0000 + (16777216
                    * o[4] + 65536 * o[5] + 256 * o[6] + o[7])) * 0x1_0000_0000 + (16777216 * o[8]
                    + 65536 * o[9] + 256 * o[10] + o[11])) * 0x1_0000_0000 + (16777216 * o[12]
                    + 65536 * o[13] + 256 * o[14] + o[15])) as u128,
            ),
        ),
{
    lemma_sixteens();
    assert(w[0] == o[0] + 256 * o[1] + 65536 * o[2] + 16777216 * o[3]);
    assert(w[1] == o[4] + 256 * o[5] + 65536 * o[6] + 16777216 * o[7]);
    assert(w[2] == o[8] + 256 * o[9] + 65536 * o[10] + 16777216 * o[11]);
    assert(w[3] == o[12] + 256 * o[13] + 65536 * o[14] + 16777216 * o[15]);
    lemma_word_reads(w[0]);
    lemma_word_reads(w[1]);
    lemma_word_reads(w[2]);
    lemma_word_reads(w[3]);
    lemma_hex_text(w[0], 8);
    lemma_hex_text(w[1], 8);
    lemma_hex_text(w[2], 8);
    lemma_hex_text(w[3], 8);
    lemma_swapped(o[0], o[1], o[2], o[3]);
    lemma_swapped(o[4], o[5], o[6], o[7]);
    lemma_swapped(o[8], o[9], o[10], o[11]);
    lemma_swapped(o[12], o[13], o[14], o[15]);
    let s = hex_text(w[0], 8) + hex_text(w[1], 8) + hex_text(w[2], 8) + hex_text(w[3], 8);
    assert(s.subrange(0, 8) =~= hex_text(w[0], 8));
    assert(s.subrange(8, 16) =~= hex_text(w[1], 8));
    assert(s.subrange(16, 24) =~= hex_text(w[2], 8));
    assert(s.subrange(24, 32) =~= hex_text(w[3], 8));
}

/// An endpoint of the table is the address, a colon and the port in four digits.
pub proof fn an_endpoint_of_the_table_reads_back(host: Seq<char>, port: u16)
    ensures
        table_port(host + seq![':'] + hex_text(port as nat, 4)) == Some(port),
        table_host(host + seq![':'] + hex_text(port as nat, 4)) == table_addr(host),
{
    lemma_sixteens();
    let p = hex_text(port as nat, 4);
    lemma_hex_text(port as nat, 4);
    text::a_split_from_the_right_gives_both_sides(host, ':', p);
    text::a_hexadecimal_number_is_read_digit_by_digit(p, '0', u16::MAX as nat);
}

/// A row says its local endpoint in its second column, the remote one in its
/// third and its inode in its tenth.
pub proof fn a_row_is_read_by_its_columns(
    parts: Seq<Seq<char>>,
    local: Seq<char>,
    port: u16,
    remote: Seq<char>,
    rport: u16,
)
    requires
        parts.len() >= 10,
        forall|i: int| 0 <= i < parts.len() ==> text::is_word(#[trigger] parts[i]),
        parts[1] == local + seq![':'] + hex_text(port as nat, 4),
        parts[2] == remote + seq![':'] + hex_text(rport as nat, 4),
        table_addr(local) is Some,
        table_addr(remote) is Some,
    ensures
        row_of(text::join(parts, " "@)) == (RowView {
            port: Some(port),
            local: table_addr(local),
            remote: Some((table_addr(remote).unwrap(), rport)),
            inode: Some(parts[9]),
        }),
{
    text::splitting_words_undoes_joining(parts);
    an_endpoint_of_the_table_reads_back(local, port);
    an_endpoint_of_the_table_reads_back(remote, rport);
}

/// An IPv4 address that is written as an IPv6 one is the IPv4 address, and every
/// other address is itself.
pub proof fn only_mapped_addresses_change_their_family(n: u32, m: u128)
    ensures
        canonical(IpAddr::V4(n)) == IpAddr::V4(n),
        canonical(IpAddr::V6((0xffff_0000_0000 + n) as u128)) == IpAddr::V4(n),
        m < 0xffff_0000_0000 || m > 0xffff_ffff_ffff ==> canonical(IpAddr::V6(m)) == IpAddr::V6(m),
{
    assert((0xffff_0000_0000 + n) / 0x1_0000_0000 == 0xffff);
    assert((0xffff_0000_0000 + n) % 0x1_0000_0000 == n);
}

/// An IPv4 socket receives a packet exactly where it has the packet's port, is
/// bound to the packet's address or to none, and is connected to the packet's
/// sender or to nobody.
pub proof fn an_ipv4_socket_receives_what_is_for_it(
    row: RowView,
    src: Seq<char>,
    sport: u16,
    dst: Seq<char>,
    dport: u16,
    port: u16,
    local: u32,
    peer: u32,
    peer_port: u16,
    from: u32,
    to: u32,
)
    requires
        row.port == Some(port),
        row.local == Some(IpAddr::V4(local)),
        row.remote == Some((IpAddr::V4(peer), peer_port)),
        addr::ip_of(src) == Some(IpAddr::V4(from)),
        addr::ip_of(dst) == Some(IpAddr::V4(to)),
    ensures
        row.receives(src, sport, dst, dport) <==> port == dport && (local == to || local == 0) && ((
        peer == 0 && peer_port == 0) || (peer == from && peer_port == sport)),
{
}

/// An IPv6 socket receives a packet likewise.
pub proof fn an_ipv6_socket_receives_what_is_for_it(
    row: RowView,
    src: Seq<char>,
    sport: u16,
    dst: Seq<char>,
    dport: u16,
    port: u16,
    local: u128,
    peer: u128,
    peer_port: u16,
    from: u128,
    to: u128,
)
    requires
        row.port == Some(port),
        row.local == Some(IpAddr::V6(local)),
        row.remote == Some((IpAddr::V6(peer), peer_port)),
        addr::ip_of(src) == Some(IpAddr::V6(from)),
        addr::ip_of(dst) == Some(IpAddr::V6(to)),
        to < 0xffff_0000_0000 || to > 0xffff_ffff_ffff,
        from < 0xffff_0000_0000 || from > 0xffff_ffff_ffff,
    ensures
        row.receives(src, sport, dst, dport) <==> port == dport && (local == to || local == 0) && ((
        peer == 0 && peer_port == 0) || (peer == from && peer_port == sport)),
{
    only_mapped_addresses_change_their_family(0, to);
    only_mapped_addresses_change_their_family(0, from);
    only_mapped_addresses_change_their_family((local % 0x1_0000_0000) as u32, local);
    only_mapped_addresses_change_their_family((peer % 0x1_0000_0000) as u32, peer);
}

/// A row that lacks its port, its address or its peer receives nothing, and
/// nothing is received of a packet whose destination cannot be read.
pub proof fn a_broken_row_receives_nothing(
    row: RowView,
    src: Seq<char>,
    sport: u16,
    dst: Seq<char>,
    dport: u16,
)
    requires
        row.port is None || row.local is None || row.remote is None || addr::ip_of(dst) is None,
    ensures
        !row.receives(src, sport, dst, dport),
{
}

proof fn lemma_links(rows: Seq<RowView>, wanted: spec_fn(RowView) -> bool, i: int, link: Seq<char>)
    requires
        0 <= i <= rows.len(),
    ensures
        links_from(rows, wanted, i).contains(link) <==> exists|k: int|
            i <= k < rows.len() && wanted(#[trigger] rows[k]) && rows[k].inode is Some && link
                == "socket:["@ + rows[k].inode.unwrap() + "]"@,
    decreases rows.len() - i,
{
    if i < rows.len() {
        lemma_links(rows, wanted, i + 1, link);
        let all = links_from(rows, wanted, i);
        let rest = links_from(rows, wanted, i + 1);
        if wanted(rows[i]) && rows[i].inode is Some {
            let own = "socket:["@ + rows[i].inode.unwrap() + "]"@;
            assert(all == seq![own] + rest);
            assert(all[0] == own);
            if rest.contains(link) {
                let k = choose|k: int| 0 <= k < rest.len() && rest[k] == link;
                assert(all[k + 1] == link);
            }
            if all.contains(link) {
                let k = choose|k: int| 0 <= k < all.len() && all[k] == link;
                if k > 0 {
                    assert(rest[k - 1] == link);
                }
            }
        }
    }
}

/// The links of a port are `socket:[` and the inode and `]`, for the rows of the
/// protocol that have the port, and no others.
pub proof fn the_links_of_a_port_name_its_sockets(
    tables: TablesView,
    proto: Seq<char>,
    port: u16,
    link: Seq<char>,
)
    ensures
        port_links(tables, proto, port).contains(link) <==> exists|k: int|
            0 <= k < tables.rows(proto).len() && (#[trigger] tables.rows(proto)[k]).port == Some(
                port,
            ) && tables.rows(proto)[k].inode is Some && link == "socket:["@ + tables.rows(
                proto,
            )[k].inode.unwrap() + "]"@,
{
    let rows = tables.rows(proto);
    lemma_links(rows, |r: RowView| r.port == Some(port), 0, link);
}

/// The links of a packet's receivers are those of the rows that receive it.
pub proof fn the_links_of_a_packet_name_its_receivers(
    tables: TablesView,
    proto: Seq<char>,
    src: Seq<char>,
    sport: u16,
    dst: Seq<char>,
    dport: u16,
    link: Seq<char>,
)
    ensures
        receiver_links(tables, proto, src, sport, dst, dport).contains(link) <==> exists|k: int|
            0 <= k < tables.rows(proto).len() && (#[trigger] tables.rows(proto)[k]).receives(
                src,
                sport,
                dst,
                dport,
            ) && tables.rows(proto)[k].inode is Some && link == "socket:["@ + tables.rows(
                proto,
            )[k].inode.unwrap() + "]"@,
{
    let rows = tables.rows(proto);
    lemma_links(rows, |r: RowView| r.receives(src, sport, dst, dport), 0, link);
}

/// A directory stands for a process that holds one of the sockets: its name is
/// all digits, and one of its descriptors links to one of them.
pub open spec fn holds_a_socket(p: ProcessView, links: Seq<Seq<char>>) -> bool {
    &&& p.name.len() > 0
    &&& forall|i: int| 0 <= i < p.name.len() ==> '0' <= #[trigger] p.name[i] <= '9'
    &&& exists|i: int, k: int|
        0 <= i < p.targets.len() && 0 <= k < links.len() && #[trigger] p.targets[i]
            == #[trigger] links[k]
}

proof fn lemma_holds_a_socket(p: ProcessView, links: Seq<Seq<char>>)
    ensures
        holds_a_socket(p, links) <==> p.is_process() && p.holds(links),
{
    if p.is_process() && p.holds(links) {
        let i = choose|i: int|
            0 <= i < p.targets.len() && links.contains(#[trigger] p.targets[i]);
        let k = choose|k: int| 0 <= k < links.len() && links[k] == p.targets[i];
        assert(p.targets[i] == links[k]);
        assert forall|i: int| 0 <= i < p.name.len() implies '0' <= #[trigger] p.name[i] <= '9' by {
            assert(text::is_digit(p.name[i]));
        }
    }
    if holds_a_socket(p, links) {
        let (i, k) = choose|i: int, k: int|
            0 <= i < p.targets.len() && 0 <= k < links.len() && #[trigger] p.targets[i]
                == #[trigger] links[k];
        assert(links.contains(p.targets[i]));
        assert forall|i: int| 0 <= i < p.name.len() implies text::is_digit(#[trigger] p.name[i]) by {}
    }
}

proof fn lemma_holder(
    processes: Seq<ProcessView>,
    links: Seq<Seq<char>>,
    i: int,
    first: int,
)
    requires
        0 <= i <= first <= processes.len(),
        first < processes.len() ==> holds_a_socket(processes[first], links),
        forall|k: int| i <= k < first ==> !holds_a_socket(#[trigger] processes[k], links),
    ensures
        first == processes.len() ==> holder_from(processes, links, i) is None,
        first < processes.len() ==> holder_from(processes, links, i) == processes[first].command(),
    decreases first - i,
{
    if i < processes.len() {
        lemma_holds_a_socket(processes[i], links);
    }
    if i < first {
        assert(!holds_a_socket(processes[i], links));
        lemma_holder(processes, links, i + 1, first);
    }
}

/// The holder of some sockets is the first process that holds one of them, by
/// the name of its command without the white space round it. There is none where
/// no process holds one, and none where the first one has no name.
pub proof fn the_first_holder_is_named(
    processes: Seq<ProcessView>,
    links: Seq<Seq<char>>,
    first: int,
)
    requires
        0 <= first <= processes.len(),
        first < processes.len() ==> holds_a_socket(processes[first], links),
        forall|k: int| 0 <= k < first ==> !holds_a_socket(#[trigger] processes[k], links),
    ensures
        first == processes.len() ==> holder_from(processes, links, 0) is None,
        first < processes.len() ==> match processes[first].comm {
            None => holder_from(processes, links, 0) is None,
            Some(comm) => if text::trim(comm).len() == 0 {
                holder_from(processes, links, 0) is None
            } else {
                holder_from(processes, links, 0) == Some(text::trim(comm))
            },
        },
{
    lemma_holder(processes, links, 0, first);
}

proof fn lemma_named_field(words: Seq<Seq<char>>, name: Seq<char>, i: int, at: int)
    requires
        0 <= i <= at < words.len(),
        text::begins(words[at], name),
        forall|k: int| i <= k < at ==> !text::begins(#[trigger] words[k], name),
    ensures
        named_field(words, name, i) == Some(words[at].skip(name.len() as int)),
    decreases at - i,
{
    if i < at {
        lemma_named_field(words, name, i + 1, at);
    }
}

proof fn lemma_no_field(words: Seq<Seq<char>>, name: Seq<char>, i: int)
    requires
        0 <= i <= words.len(),
        forall|k: int| i <= k < words.len() ==> !text::begins(#[trigger] words[k], name),
    ensures
        named_field(words, name, i) is None,
    decreases words.len() - i,
{
    if i < words.len() {
        lemma_no_field(words, name, i + 1);
    }
}

/// A field of a line is the number behind its name, in the first word that
/// begins with the name. A line without such a word has no such field.
pub proof fn a_number_stands_behind_its_name(
    parts: Seq<Seq<char>>,
    name: Seq<char>,
    at: int,
    n: u64,
)
    requires
        forall|i: int| 0 <= i < parts.len() ==> text::is_word(#[trigger] parts[i]),
        0 <= at <= parts.len(),
        forall|k: int| 0 <= k < at ==> !text::begins(#[trigger] parts[k], name),
        at < parts.len() ==> parts[at] == name + text::dec(n as nat),
    ensures
        at < parts.len() ==> number_field(text::join(parts, " "@), name) == Some(n as nat),
        at == parts.len() ==> number_field(text::join(parts, " "@), name) is None,
{
    text::splitting_words_undoes_joining(parts);
    text::a_number_reads_back(n as nat);
    if at < parts.len() {
        text::a_prefix_is_taken_off_where_it_stands(parts[at], name, text::dec(n as nat));
        lemma_named_field(parts, name, 0, at);
        assert(parts[at].skip(name.len() as int) =~= text::dec(n as nat));
    } else {
        lemma_no_field(parts, name, 0);
    }
}

/// A connection is listed with what it received where a line that begins with
/// `ESTAB` is followed by an indented one that says it: under its two endpoints,
/// with one space between them. Any other two lines list nothing.
pub proof fn an_established_connection_is_listed_with_what_it_received(
    before: Listing,
    head: Seq<char>,
    info: Seq<char>,
)
    requires
        head.len() > 0,
        !text::is_space(head[0]),
        info.len() > 0,
        text::is_space(info[0]),
    ensures
        ({
            let w = text::words(head);
            let n = number_field(info, "bytes_received:"@);
            let after = before.take_line(head).take_line(info);
            &&& after.current is None
            &&& w.len() >= 5 && w[0] == seq!['E', 'S', 'T', 'A', 'B'] && n is Some
                ==> after.received == before.received.insert(
                w[3] + seq![' '] + w[4],
                n.unwrap() as u64,
            )
            &&& w.len() < 5 || w[0] != seq!['E', 'S', 'T', 'A', 'B'] || n is None
                ==> after.received == before.received
            &&& before.take_line(head).take_line(head).received == before.received
            &&& after.take_line(info).received == after.received
        }),
{
    reveal_strlit("ESTAB");
    reveal_strlit(" ");
    assert("ESTAB"@ =~= seq!['E', 'S', 'T', 'A', 'B']);
    assert(" "@ =~= seq![' ']);
}

/// What connections gained is the sum, over those of the second sample that the
/// first holds too, of how far each has advanced; one that fell back counts
/// nothing.
pub proof fn each_connection_counts_what_it_gained(
    first: Map<Seq<char>, u64>,
    second: Seq<(String, u64)>,
    e: (String, u64),
)
    requires
        first.dom().contains(e.0@),
    ensures
        gained_from(first, Seq::empty(), 0) == 0,
        e.1 >= first[e.0@] ==> gained_from(first, second.push(e), 0) == gained_from(
            first,
            second,
            0,
        ) + e.1 - first[e.0@],
        e.1 < first[e.0@] ==> gained_from(first, second.push(e), 0) == gained_from(
            first,
            second,
            0,
        ),
{
    lemma_gained(first, second, e, 0);
}

proof fn lemma_gained(
    first: Map<Seq<char>, u64>,
    second: Seq<(String, u64)>,
    e: (String, u64),
    i: int,
)
    requires
        0 <= i <= second.len(),
        first.dom().contains(e.0@),
    ensures
        gained_from(first, second.push(e), i) == gained_from(first, second, i) + advance(
            first[e.0@],
            e.1,
        ),
    decreases second.len() - i,
{
    if i < second.len() {
        lemma_gained(first, second, e, i + 1);
    } else {
        assert(gained_from(first, second.push(e), i + 1) == 0);
    }
}

/// Lines are taken in order, and nothing is listed before the first.
pub proof fn every_line_of_a_listing_is_taken(lines: Seq<Seq<char>>, n: int, output: Seq<char>)
    requires
        0 <= n,
    ensures
        Listing::of_lines(lines, 0).received == Map::<Seq<char>, u64>::empty(),
        Listing::of_lines(lines, 0).current is None,
        Listing::of_lines(lines, n + 1) == Listing::of_lines(lines, n).take_line(lines[n]),
        received_of(output) == Listing::of_lines(
            text::lines(output),
            text::lines(output).len() as int,
        ).received,
{
}

} // verus!
