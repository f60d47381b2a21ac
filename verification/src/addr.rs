//! Socket addresses: their text, both ways.
use vstd::prelude::*;

use crate::bytes::be16_value;
use crate::number::{
    base_chars, decimal, hexadecimal, lemma_in_base, lemma_in_base_short, lemma_number_at_text,
    number_at, read_number, NumberForm, digit_value, run_end,
};
use crate::text::{chars_of, string_of};

verus! {

/// An IPv4 address.
#[derive(Clone, Copy, Debug, PartialEq, Eq, Structural)]
pub struct Ipv4Addr {
    pub a: u8,
    pub b: u8,
    pub c: u8,
    pub d: u8,
}

/// An IPv6 address, by its eight groups.
#[derive(Clone, Copy, Debug, PartialEq, Eq, Structural)]
pub struct Ipv6Addr {
    pub g0: u16,
    pub g1: u16,
    pub g2: u16,
    pub g3: u16,
    pub g4: u16,
    pub g5: u16,
    pub g6: u16,
    pub g7: u16,
}

/// An address of either kind.
#[derive(Clone, Copy, Debug, PartialEq, Eq, Structural)]
pub enum IpAddr {
    V4(Ipv4Addr),
    V6(Ipv6Addr),
}

/// An address with a port, and with a scope where it is an IPv6 address.
#[derive(Clone, Copy, Debug, PartialEq, Eq, Structural)]
#[allow(inconsistent_fields)]
pub enum SocketAddr {
    V4 { ip: Ipv4Addr, port: u16 },
    V6 { ip: Ipv6Addr, port: u16, scope_id: u32 },
}

impl SocketAddr {
    /// The address with this port, and no scope.
    pub open spec fn of(ip: IpAddr, port: u16) -> SocketAddr {
        match ip {
            IpAddr::V4(a) => SocketAddr::V4 { ip: a, port },
            IpAddr::V6(a) => SocketAddr::V6 { ip: a, port, scope_id: 0 },
        }
    }

    /// The address with this port, and no scope.
    pub fn new(ip: IpAddr, port: u16) -> (r: SocketAddr)
        ensures
            r == SocketAddr::of(ip, port),
    {
        match ip {
            IpAddr::V4(a) => SocketAddr::V4 { ip: a, port },
            IpAddr::V6(a) => SocketAddr::V6 { ip: a, port, scope_id: 0 },
        }
    }

    /// The address without the port.
    pub open spec fn ip_addr(self) -> IpAddr {
        match self {
            SocketAddr::V4 { ip, .. } => IpAddr::V4(ip),
            SocketAddr::V6 { ip, .. } => IpAddr::V6(ip),
        }
    }

    /// The port.
    pub open spec fn port_number(self) -> u16 {
        match self {
            SocketAddr::V4 { port, .. } => port,
            SocketAddr::V6 { port, .. } => port,
        }
    }

    /// The address without the port.
    pub fn ip(&self) -> (r: IpAddr)
        ensures
            r == self.ip_addr(),
    {
        match self {
            SocketAddr::V4 { ip, .. } => IpAddr::V4(*ip),
            SocketAddr::V6 { ip, .. } => IpAddr::V6(*ip),
        }
    }

    /// The port.
    pub fn port(&self) -> (r: u16)
        ensures
            r == self.port_number(),
    {
        match self {
            SocketAddr::V4 { port, .. } => *port,
            SocketAddr::V6 { port, .. } => *port,
        }
    }
}

/// The eight groups, in order.
pub open spec fn groups(ip: Ipv6Addr) -> Seq<u16> {
    seq![ip.g0, ip.g1, ip.g2, ip.g3, ip.g4, ip.g5, ip.g6, ip.g7]
}

/// The address with these eight groups.
pub open spec fn from_groups(s: Seq<u16>) -> Ipv6Addr {
    Ipv6Addr { g0: s[0], g1: s[1], g2: s[2], g3: s[3], g4: s[4], g5: s[5], g6: s[6], g7: s[7] }
}

/// The eight groups, in order.
pub fn group_list(ip: Ipv6Addr) -> (r: Vec<u16>)
    ensures
        r@ == groups(ip),
{
    let mut r: Vec<u16> = Vec::new();
    r.push(ip.g0);
    r.push(ip.g1);
    r.push(ip.g2);
    r.push(ip.g3);
    r.push(ip.g4);
    r.push(ip.g5);
    r.push(ip.g6);
    r.push(ip.g7);
    assert(r@ == groups(ip));
    r
}

// ---- writing ----------------------------------------------------------------------------

/// `a.b.c.d`.
pub open spec fn v4_text(ip: Ipv4Addr) -> Seq<char> {
    decimal(ip.a as nat) + seq!['.'] + decimal(ip.b as nat) + seq!['.'] + decimal(ip.c as nat)
        + seq!['.'] + decimal(ip.d as nat)
}

/// The groups in hexadecimal, each with a colon before it but the first.
pub open spec fn group_text(g: Seq<u16>) -> Seq<char>
    decreases g.len(),
{
    if g.len() == 0 {
        Seq::empty()
    } else if g.len() == 1 {
        hexadecimal(g[0] as nat)
    } else {
        group_text(g.drop_last()) + seq![':'] + hexadecimal(g.last() as nat)
    }
}

/// How many zero groups stand from `i` on.
pub open spec fn zeros_from(g: Seq<u16>, i: int) -> nat
    decreases g.len() - i,
{
    if 0 <= i < g.len() && g[i] == 0 {
        1 + zeros_from(g, i + 1)
    } else {
        0
    }
}

/// The first of the places below `n` from which the most zero groups stand.
pub open spec fn longest_zeros(g: Seq<u16>, n: nat) -> int
    decreases n,
{
    if n <= 1 {
        0
    } else {
        let best = longest_zeros(g, (n - 1) as nat);
        if zeros_from(g, n - 1) > zeros_from(g, best) {
            n - 1
        } else {
            best
        }
    }
}

/// Whether the address is an IPv4 address mapped into IPv6.
pub open spec fn is_mapped(ip: Ipv6Addr) -> bool {
    ip.g0 == 0 && ip.g1 == 0 && ip.g2 == 0 && ip.g3 == 0 && ip.g4 == 0 && ip.g5 == 0xffff
}

/// The IPv4 address in the last two groups.
pub open spec fn mapped_v4(ip: Ipv6Addr) -> Ipv4Addr {
    Ipv4Addr {
        a: (ip.g6 / 256) as u8,
        b: (ip.g6 % 256) as u8,
        c: (ip.g7 / 256) as u8,
        d: (ip.g7 % 256) as u8,
    }
}

/// The text of an IPv6 address: a mapped IPv4 address in its own form, otherwise the groups
/// with the first longest run of two or more zero groups left out.
pub open spec fn v6_text(ip: Ipv6Addr) -> Seq<char> {
    let g = groups(ip);
    let at = longest_zeros(g, 8);
    let n = zeros_from(g, at);
    if is_mapped(ip) {
        seq![':', ':', 'f', 'f', 'f', 'f', ':'] + v4_text(mapped_v4(ip))
    } else if n > 1 {
        group_text(g.take(at)) + seq![':', ':'] + group_text(g.skip((at + n) as int))
    } else {
        group_text(g)
    }
}

/// The text of an address.
pub open spec fn ip_text(ip: IpAddr) -> Seq<char> {
    match ip {
        IpAddr::V4(a) => v4_text(a),
        IpAddr::V6(a) => v6_text(a),
    }
}

/// The text of an address with its port.
pub open spec fn socket_text(sa: SocketAddr) -> Seq<char> {
    match sa {
        SocketAddr::V4 { ip, port } => v4_text(ip) + seq![':'] + decimal(port as nat),
        SocketAddr::V6 { ip, port, scope_id } => {
            let scope = if scope_id == 0 {
                Seq::empty()
            } else {
                seq!['%'] + decimal(scope_id as nat)
            };
            seq!['['] + v6_text(ip) + scope + seq![']', ':'] + decimal(port as nat)
        },
    }
}

/// Appends the digits of `n` in base `b`.
fn put_number(out: &mut Vec<char>, n: u64, b: u64)
    requires
        2 <= b <= 16,
    ensures
        final(out)@ == old(out)@ + crate::number::in_base(n as nat, b as nat),
{
    let mut d = base_chars(n, b);
    out.append(&mut d);
}

/// Appends `a.b.c.d`.
fn put_v4(out: &mut Vec<char>, ip: Ipv4Addr)
    ensures
        final(out)@ == old(out)@ + v4_text(ip),
{
    let ghost o = out@;
    put_number(out, ip.a as u64, 10);
    out.push('.');
    put_number(out, ip.b as u64, 10);
    out.push('.');
    put_number(out, ip.c as u64, 10);
    out.push('.');
    put_number(out, ip.d as u64, 10);
    assert(out@ == o + v4_text(ip));
}

/// Appends the groups from `a` up to `b`, with colons between them.
fn put_groups(out: &mut Vec<char>, g: &Vec<u16>, a: usize, b: usize)
    requires
        a <= b <= g@.len(),
    ensures
        final(out)@ == old(out)@ + group_text(g@.subrange(a as int, b as int)),
{
    let ghost o = out@;
    let mut i: usize = a;
    assert(group_text(g@.subrange(a as int, a as int)) == Seq::<char>::empty());
    assert(o + Seq::<char>::empty() == o);
    while i < b
        invariant
            a <= i <= b <= g@.len(),
            out@ == o + group_text(g@.subrange(a as int, i as int)),
        decreases b - i,
    {
        let ghost mid = out@;
        if i > a {
            out.push(':');
        }
        put_number(out, g[i] as u64, 16);
        proof {
            let t = g@.subrange(a as int, i + 1);
            assert(t.drop_last() == g@.subrange(a as int, i as int));
            assert(t.last() == g@[i as int]);
            if i == a {
                assert(t.len() == 1);
                assert(t[0] == g@[i as int]);
                assert(mid == o);
            }
            assert(out@ == o + group_text(t));
        }
        i = i + 1;
    }
}

/// How many zero groups stand from `i` on.
fn count_zeros(g: &Vec<u16>, i: usize) -> (r: usize)
    requires
        i <= g@.len(),
    ensures
        r == zeros_from(g@, i as int),
        i + r <= g@.len(),
    decreases g@.len() - i,
{
    if i < g.len() && g[i] == 0 {
        1 + count_zeros(g, i + 1)
    } else {
        0
    }
}

/// Appends the text of an IPv6 address.
fn put_v6(out: &mut Vec<char>, ip: Ipv6Addr)
    ensures
        final(out)@ == old(out)@ + v6_text(ip),
{
    let ghost o = out@;
    if ip.g0 == 0 && ip.g1 == 0 && ip.g2 == 0 && ip.g3 == 0 && ip.g4 == 0 && ip.g5 == 0xffff {
        out.push(':');
        out.push(':');
        out.push('f');
        out.push('f');
        out.push('f');
        out.push('f');
        out.push(':');
        let v4 = Ipv4Addr {
            a: (ip.g6 / 256) as u8,
            b: (ip.g6 % 256) as u8,
            c: (ip.g7 / 256) as u8,
            d: (ip.g7 % 256) as u8,
        };
        put_v4(out, v4);
        assert(out@ == o + v6_text(ip));
        return;
    }
    let g = group_list(ip);
    let mut best: usize = 0;
    let mut best_len: usize = count_zeros(&g, 0);
    let mut n: usize = 1;
    while n < 8
        invariant
            1 <= n <= 8,
            g@.len() == 8,
            best == longest_zeros(g@, n as nat),
            best < n,
            best_len == zeros_from(g@, best as int),
            best + best_len <= 8,
        decreases 8 - n,
    {
        let here = count_zeros(&g, n);
        if here > best_len {
            best = n;
            best_len = here;
        }
        n = n + 1;
    }
    if best_len > 1 {
        put_groups(out, &g, 0, best);
        out.push(':');
        out.push(':');
        put_groups(out, &g, best + best_len, 8);
        assert(g@.subrange(0, best as int) == g@.take(best as int));
        assert(g@.subrange(best + best_len, 8) == g@.skip(best + best_len));
        assert(out@ == o + v6_text(ip));
    } else {
        put_groups(out, &g, 0, 8);
        assert(g@.subrange(0, 8) == g@);
    }
}

impl IpAddr {
    /// The text of the address.
    pub fn to_text(&self) -> (r: String)
        ensures
            r@ == ip_text(*self),
    {
        let mut out: Vec<char> = Vec::new();
        match self {
            IpAddr::V4(a) => put_v4(&mut out, *a),
            IpAddr::V6(a) => put_v6(&mut out, *a),
        }
        assert(out@ == ip_text(*self));
        string_of(&out)
    }
}

impl SocketAddr {
    /// The text of the address with its port.
    pub fn to_text(&self) -> (r: String)
        ensures
            r@ == socket_text(*self),
    {
        let mut out: Vec<char> = Vec::new();
        match self {
            SocketAddr::V4 { ip, port } => {
                put_v4(&mut out, *ip);
                out.push(':');
                put_number(&mut out, *port as u64, 10);
            },
            SocketAddr::V6 { ip, port, scope_id } => {
                out.push('[');
                put_v6(&mut out, *ip);
                if *scope_id != 0 {
                    out.push('%');
                    put_number(&mut out, *scope_id as u64, 10);
                }
                out.push(']');
                out.push(':');
                put_number(&mut out, *port as u64, 10);
            },
        }
        assert(out@ == socket_text(*self));
        string_of(&out)
    }
}

// ---- reading ----------------------------------------------------------------------------

/// A number of an IPv4 address: up to three decimal digits, no leading zero.
pub open spec fn octet_form() -> NumberForm {
    NumberForm { base: 10, max_digits: 3, zero_prefix: false, limit: 255 }
}

/// A group of an IPv6 address: up to four hexadecimal digits.
pub open spec fn group_form() -> NumberForm {
    NumberForm { base: 16, max_digits: 4, zero_prefix: true, limit: 65535 }
}

/// A port: decimal digits.
pub open spec fn port_form() -> NumberForm {
    NumberForm { base: 10, max_digits: 0, zero_prefix: true, limit: 65535 }
}

/// A scope: decimal digits.
pub open spec fn scope_form() -> NumberForm {
    NumberForm { base: 10, max_digits: 0, zero_prefix: true, limit: 0xFFFF_FFFF }
}

/// `c` stands at `pos`.
pub open spec fn char_at(s: Seq<char>, pos: int, c: char) -> bool {
    0 <= pos < s.len() && s[pos] == c
}

/// The IPv4 address that begins at `pos`, with the position after it.
pub open spec fn v4_at(s: Seq<char>, pos: int) -> Option<(Ipv4Addr, int)> {
    match number_at(s, pos, octet_form()) {
        None => None,
        Some((a, p1)) => if !char_at(s, p1, '.') {
            None
        } else {
            match number_at(s, p1 + 1, octet_form()) {
                None => None,
                Some((b, p2)) => if !char_at(s, p2, '.') {
                    None
                } else {
                    match number_at(s, p2 + 1, octet_form()) {
                        None => None,
                        Some((c, p3)) => if !char_at(s, p3, '.') {
                            None
                        } else {
                            match number_at(s, p3 + 1, octet_form()) {
                                None => None,
                                Some((d, p4)) => Some(
                                    (
                                        Ipv4Addr { a: a as u8, b: b as u8, c: c as u8, d: d as u8 },
                                        p4,
                                    ),
                                ),
                            }
                        },
                    }
                },
            }
        },
    }
}

/// What reading a list of groups gives.
pub struct Groups {
    /// The groups that were read.
    pub found: Seq<u16>,
    /// Whether the last two of them were written as an IPv4 address.
    pub ended_in_v4: bool,
    /// The position after them.
    pub end: int,
}

/// Reads groups `i`, `i + 1`, ... up to `limit` of them, each with a colon before it but the
/// first. An IPv4 address may stand for two groups, and ends the list.
pub open spec fn groups_at(s: Seq<char>, pos: int, i: nat, limit: nat) -> Groups
    decreases limit - i,
{
    let nothing = Groups { found: Seq::empty(), ended_in_v4: false, end: pos };
    let p = if i == 0 {
        pos
    } else {
        pos + 1
    };
    if i >= limit || (i > 0 && !char_at(s, pos, ':')) {
        nothing
    } else if i + 1 < limit && v4_at(s, p).is_some() {
        let (v4, q) = v4_at(s, p).unwrap();
        Groups {
            found: seq![be16_value(v4.a, v4.b), be16_value(v4.c, v4.d)],
            ended_in_v4: true,
            end: q,
        }
    } else {
        match number_at(s, p, group_form()) {
            None => nothing,
            Some((g, q)) => {
                let rest = groups_at(s, q, i + 1, limit);
                Groups {
                    found: seq![g as u16] + rest.found,
                    ended_in_v4: rest.ended_in_v4,
                    end: rest.end,
                }
            },
        }
    }
}

/// `n` zero groups.
pub open spec fn zero_groups(n: nat) -> Seq<u16> {
    Seq::new(n, |i: int| 0u16)
}

/// The IPv6 address that begins at `pos`, with the position after it: eight groups, or fewer
/// with `::` once for one or more zero groups.
pub open spec fn v6_at(s: Seq<char>, pos: int) -> Option<(Ipv6Addr, int)> {
    let h = groups_at(s, pos, 0, 8);
    if h.found.len() == 8 {
        Some((from_groups(h.found), h.end))
    } else if h.ended_in_v4 || !char_at(s, h.end, ':') || !char_at(s, h.end + 1, ':') {
        None
    } else {
        let t = groups_at(s, h.end + 2, 0, (7 - h.found.len()) as nat);
        Some(
            (
                from_groups(
                    h.found + zero_groups((8 - h.found.len() - t.found.len()) as nat) + t.found,
                ),
                t.end,
            ),
        )
    }
}

/// `:` and a port up to the end of the text.
pub open spec fn port_tail(s: Seq<char>, pos: int) -> Option<u16> {
    if !char_at(s, pos, ':') {
        None
    } else {
        match number_at(s, pos + 1, port_form()) {
            Some((n, e)) => if e == s.len() {
                Some(n as u16)
            } else {
                None
            },
            None => None,
        }
    }
}

/// The scope at `pos`, or none, with the position after it.
pub open spec fn scope_at(s: Seq<char>, pos: int) -> (u32, int) {
    if char_at(s, pos, '%') {
        match number_at(s, pos + 1, scope_form()) {
            Some((n, e)) => (n as u32, e),
            None => (0, pos),
        }
    } else {
        (0, pos)
    }
}

/// The socket address that `s` writes: `a.b.c.d:port`, or `[v6]:port` with an optional scope.
pub open spec fn socket_of(s: Seq<char>) -> Option<SocketAddr> {
    match v4_at(s, 0) {
        Some((ip, p)) => match port_tail(s, p) {
            Some(port) => Some(SocketAddr::V4 { ip, port }),
            None => None,
        },
        None => if !char_at(s, 0, '[') {
            None
        } else {
            match v6_at(s, 1) {
                None => None,
                Some((ip, p)) => {
                    let (scope_id, q) = scope_at(s, p);
                    if !char_at(s, q, ']') {
                        None
                    } else {
                        match port_tail(s, q + 1) {
                            Some(port) => Some(SocketAddr::V6 { ip, port, scope_id }),
                            None => None,
                        }
                    }
                },
            }
        },
    }
}

/// The address that `s` writes, without a port.
pub open spec fn ip_of_text(s: Seq<char>) -> Option<IpAddr> {
    match v4_at(s, 0) {
        Some((ip, e)) => if e == s.len() {
            Some(IpAddr::V4(ip))
        } else {
            v6_whole(s)
        },
        None => v6_whole(s),
    }
}

/// The IPv6 address that the whole of `s` writes.
pub open spec fn v6_whole(s: Seq<char>) -> Option<IpAddr> {
    match v6_at(s, 0) {
        Some((ip, e)) => if e == s.len() {
            Some(IpAddr::V6(ip))
        } else {
            None
        },
        None => None,
    }
}

/// Whether `c` stands at `pos`.
fn is_at(s: &[char], pos: usize, c: char) -> (r: bool)
    ensures
        r == char_at(s@, pos as int, c),
{
    pos < s.len() && s[pos] == c
}

fn read_octet(s: &[char], pos: usize) -> (r: Option<(u8, usize)>)
    requires
        pos <= s.len(),
    ensures
        match number_at(s@, pos as int, octet_form()) {
            Some((n, e)) => r == Some((n as u8, e as usize)) && pos <= e <= s.len(),
            None => r.is_none(),
        },
{
    match read_number(
        s,
        pos,
        NumberForm { base: 10, max_digits: 3, zero_prefix: false, limit: 255 },
    ) {
        Some((n, e)) => Some((n as u8, e)),
        None => None,
    }
}

fn read_v4(s: &[char], pos: usize) -> (r: Option<(Ipv4Addr, usize)>)
    requires
        pos <= s.len(),
    ensures
        match v4_at(s@, pos as int) {
            Some((ip, e)) => r == Some((ip, e as usize)) && pos <= e <= s.len(),
            None => r.is_none(),
        },
{
    let (a, p1) = match read_octet(s, pos) {
        Some(x) => x,
        None => {
            return None;
        },
    };
    if !is_at(s, p1, '.') {
        return None;
    }
    let (b, p2) = match read_octet(s, p1 + 1) {
        Some(x) => x,
        None => {
            return None;
        },
    };
    if !is_at(s, p2, '.') {
        return None;
    }
    let (c, p3) = match read_octet(s, p2 + 1) {
        Some(x) => x,
        None => {
            return None;
        },
    };
    if !is_at(s, p3, '.') {
        return None;
    }
    match read_octet(s, p3 + 1) {
        Some((d, p4)) => Some((Ipv4Addr { a, b, c, d }, p4)),
        None => None,
    }
}

/// At most as many groups are read as there is room for, and none of the text is overrun.
pub proof fn lemma_groups_at(s: Seq<char>, pos: int, i: nat, limit: nat)
    requires
        0 <= pos <= s.len(),
    ensures
        i <= limit ==> groups_at(s, pos, i, limit).found.len() <= limit - i,
        pos <= groups_at(s, pos, i, limit).end <= s.len(),
    decreases limit - i,
{
    let p = if i == 0 {
        pos
    } else {
        pos + 1
    };
    if i >= limit || (i > 0 && !char_at(s, pos, ':')) {
    } else if i + 1 < limit && v4_at(s, p).is_some() {
        lemma_v4_end(s, p);
    } else {
        match number_at(s, p, group_form()) {
            None => {},
            Some((g, q)) => {
                crate::number::lemma_run_end(s, p, 16);
                lemma_groups_at(s, q, i + 1, limit);
            },
        }
    }
}

proof fn lemma_v4_end(s: Seq<char>, pos: int)
    requires
        0 <= pos <= s.len(),
    ensures
        v4_at(s, pos) matches Some((ip, e)) ==> pos <= e <= s.len(),
{
    crate::number::lemma_run_end(s, pos, 10);
    if let Some((a, p1)) = number_at(s, pos, octet_form()) {
        if char_at(s, p1, '.') {
            crate::number::lemma_run_end(s, p1 + 1, 10);
            if let Some((b, p2)) = number_at(s, p1 + 1, octet_form()) {
                if char_at(s, p2, '.') {
                    crate::number::lemma_run_end(s, p2 + 1, 10);
                    if let Some((c, p3)) = number_at(s, p2 + 1, octet_form()) {
                        if char_at(s, p3, '.') {
                            crate::number::lemma_run_end(s, p3 + 1, 10);
                        }
                    }
                }
            }
        }
    }
}

/// Reads a list of groups.
fn read_groups(s: &[char], start: usize, limit: usize) -> (r: (Vec<u16>, bool, usize))
    requires
        start <= s.len(),
        limit <= 8,
    ensures
        r.0@ == groups_at(s@, start as int, 0, limit as nat).found,
        r.1 == groups_at(s@, start as int, 0, limit as nat).ended_in_v4,
        r.2 == groups_at(s@, start as int, 0, limit as nat).end,
        r.0@.len() <= limit,
        start <= r.2 <= s.len(),
{
    let mut out: Vec<u16> = Vec::new();
    let mut pos: usize = start;
    let mut i: usize = 0;
    let ghost all = groups_at(s@, start as int, 0, limit as nat);
    proof {
        lemma_groups_at(s@, start as int, 0, limit as nat);
        assert(out@ + groups_at(s@, pos as int, i as nat, limit as nat).found == all.found);
    }
    loop
        invariant
            i <= limit <= 8,
            pos <= s.len(),
            out@.len() == i,
            all == groups_at(s@, start as int, 0, limit as nat),
            all.found.len() <= limit,
            start <= all.end <= s.len(),
            all.found == out@ + groups_at(s@, pos as int, i as nat, limit as nat).found,
            all.ended_in_v4 == groups_at(s@, pos as int, i as nat, limit as nat).ended_in_v4,
            all.end == groups_at(s@, pos as int, i as nat, limit as nat).end,
        decreases limit - i,
    {
        assert(out@ + Seq::<u16>::empty() == out@);
        if i >= limit || (i > 0 && !is_at(s, pos, ':')) {
            return (out, false, pos);
        }
        let p: usize = if i == 0 {
            pos
        } else {
            pos + 1
        };
        if i + 1 < limit {
            if let Some((v4, q)) = read_v4(s, p) {
                let ghost was = out@;
                out.push(v4.a as u16 * 256 + v4.b as u16);
                out.push(v4.c as u16 * 256 + v4.d as u16);
                assert(out@ == was + seq![be16_value(v4.a, v4.b), be16_value(v4.c, v4.d)]);
                return (out, true, q);
            }
        }
        match read_number(
            s,
            p,
            NumberForm { base: 16, max_digits: 4, zero_prefix: true, limit: 65535 },
        ) {
            None => {
                return (out, false, pos);
            },
            Some((g, q)) => {
                let ghost rest = groups_at(s@, q as int, (i + 1) as nat, limit as nat);
                assert(out@ + (seq![g as u16] + rest.found) == out@.push(g as u16) + rest.found);
                out.push(g as u16);
                pos = q;
                i = i + 1;
            },
        }
    }
}

fn read_v6(s: &[char], pos: usize) -> (r: Option<(Ipv6Addr, usize)>)
    requires
        pos <= s.len(),
    ensures
        match v6_at(s@, pos as int) {
            Some((ip, e)) => r == Some((ip, e as usize)) && pos <= e <= s.len(),
            None => r.is_none(),
        },
{
    let (head, ended_in_v4, p) = read_groups(s, pos, 8);
    let mut all: Vec<u16> = head;
    let ghost h = all@;
    if all.len() == 8 {
        return Some(
            (
                Ipv6Addr {
                    g0: all[0],
                    g1: all[1],
                    g2: all[2],
                    g3: all[3],
                    g4: all[4],
                    g5: all[5],
                    g6: all[6],
                    g7: all[7],
                },
                p,
            ),
        );
    }
    if ended_in_v4 || !is_at(s, p, ':') || !is_at(s, p + 1, ':') {
        return None;
    }
    let (tail, _v4, e) = read_groups(s, p + 2, 7 - all.len());
    let zeros: usize = 8 - all.len() - tail.len();
    let mut i: usize = 0;
    assert(h + zero_groups(0) == h);
    while i < zeros
        invariant
            i <= zeros,
            all@ == h + zero_groups(i as nat),
        decreases zeros - i,
    {
        all.push(0);
        i = i + 1;
        assert(h + zero_groups((i - 1) as nat).push(0u16) == h + zero_groups(i as nat)) by {
            assert(zero_groups((i - 1) as nat).push(0u16) == zero_groups(i as nat));
        }
        assert(all@ == h + zero_groups(i as nat));
    }
    let mut rest: Vec<u16> = tail;
    all.append(&mut rest);
    Some(
        (
            Ipv6Addr {
                g0: all[0],
                g1: all[1],
                g2: all[2],
                g3: all[3],
                g4: all[4],
                g5: all[5],
                g6: all[6],
                g7: all[7],
            },
            e,
        ),
    )
}

fn read_port(s: &[char], pos: usize) -> (r: Option<u16>)
    requires
        pos <= s.len(),
    ensures
        r == port_tail(s@, pos as int),
{
    if !is_at(s, pos, ':') {
        return None;
    }
    match read_number(
        s,
        pos + 1,
        NumberForm { base: 10, max_digits: 0, zero_prefix: true, limit: 65535 },
    ) {
        Some((n, e)) => if e == s.len() {
            Some(n as u16)
        } else {
            None
        },
        None => None,
    }
}

impl SocketAddr {
    /// The socket address that `s` writes.
    pub fn parse(s: &str) -> (r: Option<SocketAddr>)
        ensures
            r == socket_of(s@),
    {
        let x = chars_of(s);
        if let Some((ip, p)) = read_v4(&x, 0) {
            return match read_port(&x, p) {
                Some(port) => Some(SocketAddr::V4 { ip, port }),
                None => None,
            };
        }
        if !is_at(&x, 0, '[') {
            return None;
        }
        match read_v6(&x, 1) {
            None => None,
            Some((ip, p)) => {
                let mut scope_id: u32 = 0;
                let mut q: usize = p;
                if is_at(&x, p, '%') {
                    if let Some((n, e)) = read_number(
                        &x,
                        p + 1,
                        NumberForm {
                            base: 10,
                            max_digits: 0,
                            zero_prefix: true,
                            limit: 0xFFFF_FFFF,
                        },
                    ) {
                        scope_id = n as u32;
                        q = e;
                    }
                }
                assert((scope_id, q as int) == scope_at(x@, p as int));
                if !is_at(&x, q, ']') {
                    return None;
                }
                match read_port(&x, q + 1) {
                    Some(port) => Some(SocketAddr::V6 { ip, port, scope_id }),
                    None => None,
                }
            },
        }
    }
}

impl IpAddr {
    /// The address that `s` writes.
    pub fn parse(s: &str) -> (r: Option<IpAddr>)
        ensures
            r == ip_of_text(s@),
    {
        let x = chars_of(s);
        if let Some((ip, e)) = read_v4(&x, 0) {
            if e == x.len() {
                return Some(IpAddr::V4(ip));
            }
        }
        match read_v6(&x, 0) {
            Some((ip, e)) => if e == x.len() {
                Some(IpAddr::V6(ip))
            } else {
                None
            },
            None => None,
        }
    }
}

// ---- what is written is read back ---------------------------------------------------------

/// A piece of a piece of `s` is a piece of `s`.
proof fn lemma_piece(s: Seq<char>, pos: int, whole: Seq<char>, off: int, part: Seq<char>)
    requires
        0 <= pos,
        pos + whole.len() <= s.len(),
        s.subrange(pos, pos + whole.len()) == whole,
        0 <= off,
        off + part.len() <= whole.len(),
        whole.subrange(off, off + part.len()) == part,
    ensures
        s.subrange(pos + off, pos + off + part.len()) == part,
        forall|i: int| 0 <= i < whole.len() ==> s[pos + i] == #[trigger] whole[i],
{
    assert forall|i: int| 0 <= i < whole.len() implies s[pos + i] == #[trigger] whole[i] by {
        assert(s.subrange(pos, pos + whole.len())[i] == whole[i]);
    }
    assert(s.subrange(pos + off, pos + off + part.len()) =~= part) by {
        assert forall|i: int| 0 <= i < part.len() implies s[pos + off + i] == part[i] by {
            assert(whole.subrange(off, off + part.len())[i] == part[i]);
            assert(s[pos + (off + i)] == whole[off + i]);
        }
    }
}

/// What follows at `e` is not a digit in base `b`.
spec fn no_digit(s: Seq<char>, e: int, b: nat) -> bool {
    e < s.len() ==> digit_value(s[e], b).is_none()
}

proof fn lemma_octet_text(s: Seq<char>, pos: int, n: u8)
    requires
        0 <= pos,
        pos + decimal(n as nat).len() <= s.len(),
        s.subrange(pos, pos + decimal(n as nat).len()) == decimal(n as nat),
        no_digit(s, pos + decimal(n as nat).len(), 10),
    ensures
        number_at(s, pos, octet_form()) == Some((n as nat, pos + decimal(n as nat).len())),
{
    lemma_in_base_short(n as nat, 10);
    lemma_number_at_text(s, pos, n as nat, octet_form());
}

proof fn lemma_v4_text_read(s: Seq<char>, pos: int, ip: Ipv4Addr)
    requires
        0 <= pos,
        pos + v4_text(ip).len() <= s.len(),
        s.subrange(pos, pos + v4_text(ip).len()) == v4_text(ip),
        no_digit(s, pos + v4_text(ip).len(), 10),
    ensures
        v4_at(s, pos) == Some((ip, pos + v4_text(ip).len())),
{
    let w = v4_text(ip);
    let a = decimal(ip.a as nat);
    let b = decimal(ip.b as nat);
    let c = decimal(ip.c as nat);
    let d = decimal(ip.d as nat);
    let o1: int = a.len() as int + 1;
    let o2: int = o1 + b.len() + 1;
    let o3: int = o2 + c.len() + 1;
    assert(w.subrange(0, a.len() as int) == a);
    assert(w.subrange(o1, o1 + b.len()) == b);
    assert(w.subrange(o2, o2 + c.len()) == c);
    assert(w.subrange(o3, o3 + d.len()) == d);
    assert(w[a.len() as int] == '.');
    assert(w[o1 + b.len()] == '.');
    assert(w[o2 + c.len()] == '.');
    lemma_piece(s, pos, w, 0, a);
    lemma_piece(s, pos, w, o1, b);
    lemma_piece(s, pos, w, o2, c);
    lemma_piece(s, pos, w, o3, d);
    assert(s[pos + a.len()] == '.');
    assert(s[pos + (o1 + b.len())] == '.');
    assert(s[pos + (o2 + c.len())] == '.');
    lemma_octet_text(s, pos, ip.a);
    lemma_octet_text(s, pos + o1, ip.b);
    lemma_octet_text(s, pos + o2, ip.c);
    lemma_octet_text(s, pos + o3, ip.d);
}

/// Where the first run of decimal digits does not end in a dot, no IPv4 address begins.
proof fn lemma_no_v4(s: Seq<char>, p: int)
    requires
        !char_at(s, run_end(s, p, 10), '.'),
    ensures
        v4_at(s, p).is_none(),
{
}

/// Reads one group.
proof fn lemma_group_read(s: Seq<char>, p: int, g: u16)
    requires
        0 <= p,
        p + hexadecimal(g as nat).len() <= s.len(),
        s.subrange(p, p + hexadecimal(g as nat).len()) == hexadecimal(g as nat),
        no_digit(s, p + hexadecimal(g as nat).len(), 16),
        !char_at(s, p + hexadecimal(g as nat).len(), '.'),
    ensures
        number_at(s, p, group_form()) == Some((g as nat, p + hexadecimal(g as nat).len())),
        v4_at(s, p).is_none(),
{
    let t = hexadecimal(g as nat);
    let e = p + t.len();
    lemma_in_base(g as nat, 16);
    lemma_in_base_short(g as nat, 16);
    lemma_number_at_text(s, p, g as nat, group_form());
    crate::number::lemma_run_end(s, p, 10);
    let r = run_end(s, p, 10);
    if r > e {
        assert(digit_value(s[e], 10).is_some());
        assert(digit_value(s[e], 16).is_some());
    }
    if r < e {
        assert(s[r] == t[r - p]);
        assert(digit_value(t[r - p], 16).is_some());
    }
    lemma_no_v4(s, p);
}

/// The groups, each with a colon before it.
spec fn colon_groups(g: Seq<u16>) -> Seq<char>
    decreases g.len(),
{
    if g.len() == 0 {
        Seq::empty()
    } else {
        seq![':'] + hexadecimal(g[0] as nat) + colon_groups(g.skip(1))
    }
}

proof fn lemma_colon_groups_last(g: Seq<u16>)
    requires
        g.len() > 0,
    ensures
        colon_groups(g) == colon_groups(g.drop_last()) + seq![':'] + hexadecimal(g.last() as nat),
    decreases g.len(),
{
    if g.len() == 1 {
        assert(colon_groups(g.skip(1)) == Seq::<char>::empty());
        assert(colon_groups(g.drop_last()) == Seq::<char>::empty());
        assert(colon_groups(g) == colon_groups(g.drop_last()) + seq![':'] + hexadecimal(
            g.last() as nat,
        ));
    } else {
        lemma_colon_groups_last(g.skip(1));
        assert(g.skip(1).drop_last() == g.drop_last().skip(1));
        assert(g.skip(1).last() == g.last());
        assert(g.drop_last()[0] == g[0]);
        assert(colon_groups(g) == colon_groups(g.drop_last()) + seq![':'] + hexadecimal(
            g.last() as nat,
        ));
    }
}

proof fn lemma_group_text_front(g: Seq<u16>)
    requires
        g.len() > 0,
    ensures
        group_text(g) == hexadecimal(g[0] as nat) + colon_groups(g.skip(1)),
    decreases g.len(),
{
    if g.len() == 1 {
        assert(colon_groups(g.skip(1)) == Seq::<char>::empty());
        assert(group_text(g) == hexadecimal(g[0] as nat) + colon_groups(g.skip(1)));
    } else {
        lemma_group_text_front(g.drop_last());
        lemma_colon_groups_last(g.skip(1));
        assert(g.skip(1).drop_last() == g.drop_last().skip(1));
        assert(group_text(g) == hexadecimal(g[0] as nat) + colon_groups(g.skip(1)));
    }
}

/// No further group can be read at `e`.
spec fn groups_stop(s: Seq<char>, e: int) -> bool {
    &&& no_digit(s, e, 16)
    &&& !char_at(s, e, '.')
    &&& char_at(s, e, ':') ==> no_digit(s, e + 1, 16)
}

proof fn lemma_stop(s: Seq<char>, e: int, i: nat, limit: nat)
    requires
        0 <= e <= s.len(),
        groups_stop(s, e),
    ensures
        groups_at(s, e, i, limit) == (Groups { found: Seq::empty(), ended_in_v4: false, end: e }),
{
    let p = if i == 0 {
        e
    } else {
        e + 1
    };
    if i < limit && (i == 0 || char_at(s, e, ':')) {
        assert(run_end(s, p, 16) == p);
        assert(run_end(s, p, 10) == p) by {
            if p < s.len() && digit_value(s[p], 10).is_some() {
                assert(digit_value(s[p], 16).is_some());
            }
        }
        assert(number_at(s, p, group_form()).is_none());
        assert(number_at(s, p, octet_form()).is_none());
    }
}

proof fn lemma_colon_groups_read(s: Seq<char>, pos: int, i: nat, limit: nat, g: Seq<u16>)
    requires
        0 <= pos,
        1 <= i,
        i + g.len() <= limit,
        pos + colon_groups(g).len() <= s.len(),
        s.subrange(pos, pos + colon_groups(g).len()) == colon_groups(g),
        groups_stop(s, pos + colon_groups(g).len()),
    ensures
        groups_at(s, pos, i, limit) == (Groups {
            found: g,
            ended_in_v4: false,
            end: pos + colon_groups(g).len(),
        }),
    decreases g.len(),
{
    let w = colon_groups(g);
    if g.len() == 0 {
        lemma_stop(s, pos, i, limit);
        assert(g == Seq::<u16>::empty());
    } else {
        let h = hexadecimal(g[0] as nat);
        let rest = colon_groups(g.skip(1));
        assert(w.subrange(1, 1 + h.len() as int) == h);
        assert(w.subrange((1 + h.len()) as int, (1 + h.len() + rest.len()) as int) == rest);
        assert(w[0] == ':');
        lemma_piece(s, pos, w, 1, h);
        lemma_piece(s, pos, w, (1 + h.len()) as int, rest);
        assert(s[pos + 0] == w[0]);
        let q = pos + 1 + h.len();
        if rest.len() > 0 {
            assert(rest[0] == ':');
            assert(s[pos + (1 + h.len())] == w[(1 + h.len()) as int]);
            assert(s[q] == ':');
        }
        assert(no_digit(s, q, 16));
        assert(!char_at(s, q, '.'));
        lemma_group_read(s, pos + 1, g[0]);
        lemma_colon_groups_read(s, q, i + 1, limit, g.skip(1));
        assert(seq![g[0]] + g.skip(1) == g);
    }
}

proof fn lemma_group_text_read(s: Seq<char>, pos: int, limit: nat, g: Seq<u16>)
    requires
        0 <= pos,
        g.len() <= limit,
        pos + group_text(g).len() <= s.len(),
        s.subrange(pos, pos + group_text(g).len()) == group_text(g),
        groups_stop(s, pos + group_text(g).len()),
    ensures
        groups_at(s, pos, 0, limit) == (Groups {
            found: g,
            ended_in_v4: false,
            end: pos + group_text(g).len(),
        }),
{
    if g.len() == 0 {
        lemma_stop(s, pos, 0, limit);
        assert(g == Seq::<u16>::empty());
    } else {
        lemma_group_text_front(g);
        let w = group_text(g);
        let h = hexadecimal(g[0] as nat);
        let rest = colon_groups(g.skip(1));
        assert(w.subrange(0, h.len() as int) == h);
        assert(w.subrange(h.len() as int, (h.len() + rest.len()) as int) == rest);
        lemma_piece(s, pos, w, 0, h);
        lemma_piece(s, pos, w, h.len() as int, rest);
        let q: int = pos + h.len();
        if rest.len() > 0 {
            assert(rest[0] == ':');
            assert(s[pos + h.len()] == w[h.len() as int]);
            assert(s[q] == ':');
        }
        lemma_group_read(s, pos, g[0]);
        lemma_colon_groups_read(s, q, 1, limit, g.skip(1));
        assert(seq![g[0]] + g.skip(1) == g);
    }
}

proof fn lemma_zeros(g: Seq<u16>, i: int)
    requires
        0 <= i <= g.len(),
    ensures
        i + zeros_from(g, i) <= g.len(),
        forall|j: int| i <= j < i + zeros_from(g, i) ==> g[j] == 0,
    decreases g.len() - i,
{
    if i < g.len() && g[i] == 0 {
        lemma_zeros(g, i + 1);
    }
}

proof fn lemma_longest(g: Seq<u16>, n: nat)
    requires
        n >= 1,
    ensures
        0 <= longest_zeros(g, n) < n,
    decreases n,
{
    if n > 1 {
        lemma_longest(g, (n - 1) as nat);
    }
}

/// What ends the text of an address: nothing, `]` or `%`.
spec fn address_end(s: Seq<char>, e: int) -> bool {
    e == s.len() || char_at(s, e, ']') || char_at(s, e, '%')
}

#[verifier::rlimit(30)]
proof fn lemma_mapped_read(s: Seq<char>, pos: int, ip: Ipv6Addr)
    requires
        is_mapped(ip),
        0 <= pos,
        pos + v6_text(ip).len() <= s.len(),
        s.subrange(pos, pos + v6_text(ip).len()) == v6_text(ip),
        address_end(s, pos + v6_text(ip).len()),
    ensures
        v6_at(s, pos) == Some((ip, pos + v6_text(ip).len())),
{
    let w = v6_text(ip);
    let v4 = mapped_v4(ip);
    let t = v4_text(v4);
    assert(w.subrange(7, (7 + t.len()) as int) == t);
    lemma_piece(s, pos, w, 7, t);
    assert(w[0] == ':' && w[1] == ':' && w[2] == 'f' && w[3] == 'f' && w[4] == 'f' && w[5] == 'f'
        && w[6] == ':');
    assert(s[pos + 0] == ':' && s[pos + 1] == ':' && s[pos + 2] == 'f' && s[pos + 3] == 'f' && s[pos
        + 4] == 'f' && s[pos + 5] == 'f' && s[pos + 6] == ':');
    lemma_stop(s, pos, 0, 8);
    let q = pos + 2;
    assert(hexadecimal(0xffff) == seq!['f', 'f', 'f', 'f']) by {
        reveal_with_fuel(crate::number::in_base, 5);
    }
    assert(s.subrange(q, q + 4) == seq!['f', 'f', 'f', 'f']);
    lemma_group_read(s, q, 0xffff);
    lemma_v4_text_read(s, pos + 7, v4);
    let r = groups_at(s, q + 4, 1, 7);
    assert(r.found == seq![be16_value(v4.a, v4.b), be16_value(v4.c, v4.d)]);
    assert(be16_value(v4.a, v4.b) == ip.g6);
    assert(be16_value(v4.c, v4.d) == ip.g7);
    let all = groups_at(s, q, 0, 7);
    assert(all.found == seq![0xffffu16] + r.found);
    let whole = Seq::<u16>::empty() + zero_groups(5) + all.found;
    assert(all.found.len() == 3);
    assert(from_groups(whole) == ip);
}

#[verifier::rlimit(30)]
proof fn lemma_v6_text_read(s: Seq<char>, pos: int, ip: Ipv6Addr)
    requires
        0 <= pos,
        pos + v6_text(ip).len() <= s.len(),
        s.subrange(pos, pos + v6_text(ip).len()) == v6_text(ip),
        address_end(s, pos + v6_text(ip).len()),
    ensures
        v6_at(s, pos) == Some((ip, pos + v6_text(ip).len())),
{
    let w = v6_text(ip);
    let g = groups(ip);
    let at = longest_zeros(g, 8);
    let n = zeros_from(g, at);
    assert(from_groups(g) == ip);
    if is_mapped(ip) {
        lemma_mapped_read(s, pos, ip);
    } else if n > 1 {
        lemma_longest(g, 8);
        lemma_zeros(g, at);
        let head = g.take(at);
        let tail = g.skip((at + n) as int);
        let ht = group_text(head);
        let tt = group_text(tail);
        assert(w.subrange(0, ht.len() as int) == ht);
        assert(w.subrange((ht.len() + 2) as int, (ht.len() + 2 + tt.len()) as int) == tt);
        assert(w[ht.len() as int] == ':' && w[ht.len() as int + 1] == ':');
        lemma_piece(s, pos, w, 0, ht);
        lemma_piece(s, pos, w, (ht.len() + 2) as int, tt);
        let e1 = pos + ht.len();
        assert(s[pos + ht.len()] == ':');
        assert(s[pos + (ht.len() + 1)] == ':');
        assert(groups_stop(s, e1));
        lemma_group_text_read(s, pos, 8, head);
        assert(groups_stop(s, e1 + 2 + tt.len()));
        lemma_group_text_read(s, e1 + 2, (7 - at) as nat, tail);
        let whole = head + zero_groups((8 - head.len() - tail.len()) as nat) + tail;
        assert(whole =~= g);
    } else {
        assert(groups_stop(s, pos + w.len()));
        lemma_group_text_read(s, pos, 8, g);
    }
}

/// Where the parts of a bracketed address stand.
proof fn lemma_bracketed(t: Seq<char>, scope: Seq<char>, d: Seq<char>)
    ensures
        ({
            let s = seq!['['] + t + scope + seq![']', ':'] + d;
            let p: int = 1 + t.len() as int;
            let q: int = p + scope.len();
            &&& s.len() == q + 2 + d.len()
            &&& s[0] == '['
            &&& s.subrange(1, p) == t
            &&& s.subrange(p, q) == scope
            &&& s[q] == ']'
            &&& s[q + 1] == ':'
            &&& s.subrange(q + 2, q + 2 + d.len()) == d
        }),
{
    let s = seq!['['] + t + scope + seq![']', ':'] + d;
    let p: int = 1 + t.len() as int;
    let q: int = p + scope.len();
    assert(s.subrange(1, p) == t);
    assert(s.subrange(p, q) == scope);
    assert(s.subrange(q + 2, q + 2 + d.len()) == d);
}

proof fn lemma_scope_read(s: Seq<char>, p: int, scope_id: u32)
    requires
        0 <= p,
        scope_id != 0,
        p + 1 + decimal(scope_id as nat).len() < s.len(),
        s.subrange(p, p + 1 + decimal(scope_id as nat).len()) == seq!['%'] + decimal(
            scope_id as nat,
        ),
        s[p + 1 + decimal(scope_id as nat).len()] == ']',
    ensures
        scope_at(s, p) == (scope_id, p + 1 + decimal(scope_id as nat).len()),
        s[p] == '%',
{
    let n = decimal(scope_id as nat);
    let w = seq!['%'] + n;
    assert(w.subrange(1, 1 + n.len() as int) == n);
    lemma_piece(s, p, w, 1, n);
    assert(s[p + 0] == w[0]);
    lemma_number_at_text(s, p + 1, scope_id as nat, scope_form());
}

proof fn lemma_socket_v6_read(ip: Ipv6Addr, port: u16, scope_id: u32)
    ensures
        socket_of(socket_text(SocketAddr::V6 { ip, port, scope_id })) == Some(
            (SocketAddr::V6 { ip, port, scope_id }),
        ),
{
    let s = socket_text(SocketAddr::V6 { ip, port, scope_id });
    let t = v6_text(ip);
    let d = decimal(port as nat);
    let scope = if scope_id == 0 {
        Seq::empty()
    } else {
        seq!['%'] + decimal(scope_id as nat)
    };
    let p: int = 1 + t.len() as int;
    let q: int = p + scope.len();
    lemma_bracketed(t, scope, d);
    assert(v4_at(s, 0).is_none()) by {
        assert(run_end(s, 0, 10) == 0);
    }
    if scope_id != 0 {
        lemma_scope_read(s, p, scope_id);
    }
    lemma_v6_text_read(s, 1, ip);
    assert(scope_at(s, p) == (scope_id, q));
    lemma_number_at_text(s, q + 2, port as nat, port_form());
    assert(port_tail(s, q + 1) == Some(port));
}

/// Reading the text of a socket address gives the address back.
#[verifier::rlimit(30)]
pub proof fn law_socket_text_read_back(sa: SocketAddr)
    ensures
        socket_of(socket_text(sa)) == Some(sa),
{
    let s = socket_text(sa);
    match sa {
        SocketAddr::V4 { ip, port } => {
            let t = v4_text(ip);
            let d = decimal(port as nat);
            assert(s.subrange(0, t.len() as int) == t);
            assert(s[t.len() as int] == ':');
            lemma_v4_text_read(s, 0, ip);
            assert(s.subrange(t.len() as int + 1, (t.len() + 1 + d.len()) as int) == d);
            lemma_number_at_text(s, t.len() as int + 1, port as nat, port_form());
        },
        SocketAddr::V6 { ip, port, scope_id } => {
            lemma_socket_v6_read(ip, port, scope_id);
        },
    }
}

/// Reading the text of an address gives the address back.
pub proof fn law_ip_text_read_back(ip: IpAddr)
    ensures
        ip_of_text(ip_text(ip)) == Some(ip),
{
    let s = ip_text(ip);
    assert(s.subrange(0, s.len() as int) == s);
    match ip {
        IpAddr::V4(a) => {
            lemma_v4_text_read(s, 0, a);
        },
        IpAddr::V6(a) => {
            lemma_v6_text_read(s, 0, a);
            if let Some((v4, e)) = v4_at(s, 0) {
                if e == s.len() {
                    lemma_v6_has_colon(a);
                    lemma_v4_has_no_colon(s);
                }
            }
        },
    }
}

proof fn lemma_v6_has_colon(ip: Ipv6Addr)
    ensures
        exists|i: int| 0 <= i < v6_text(ip).len() && v6_text(ip)[i] == ':',
{
    let w = v6_text(ip);
    let g = groups(ip);
    let at = longest_zeros(g, 8);
    let n = zeros_from(g, at);
    if is_mapped(ip) {
        assert(w[0] == ':');
    } else if n > 1 {
        assert(w[group_text(g.take(at)).len() as int] == ':');
    } else {
        assert(w[group_text(g.drop_last()).len() as int] == ':');
    }
}

/// An IPv4 address that fills the whole text leaves no room for a colon.
proof fn lemma_v4_has_no_colon(s: Seq<char>)
    requires
        v4_at(s, 0) matches Some((ip, e)) && e == s.len(),
    ensures
        forall|i: int| 0 <= i < s.len() ==> s[i] != ':',
{
    crate::number::lemma_run_end(s, 0, 10);
    let (a, p1) = number_at(s, 0, octet_form()).unwrap();
    crate::number::lemma_run_end(s, p1 + 1, 10);
    let (b, p2) = number_at(s, p1 + 1, octet_form()).unwrap();
    crate::number::lemma_run_end(s, p2 + 1, 10);
    let (c, p3) = number_at(s, p2 + 1, octet_form()).unwrap();
    crate::number::lemma_run_end(s, p3 + 1, 10);
    assert forall|i: int| 0 <= i < s.len() implies s[i] != ':' by {
        if s[i] == ':' {
            assert(digit_value(s[i], 10).is_none());
        }
    }
}

/// An IPv4 address is written as its four numbers in decimal, the first in front, with dots between,
/// and a socket address with a colon and the port behind; an IPv6 socket address has brackets
/// around its address.
pub proof fn law_address_texts(ip: Ipv4Addr, port: u16, v6: Ipv6Addr)
    ensures
        socket_text(SocketAddr::V4 { ip, port }) == decimal(ip.a as nat) + seq!['.'] + decimal(
            ip.b as nat,
        ) + seq!['.'] + decimal(ip.c as nat) + seq!['.'] + decimal(ip.d as nat) + seq![':']
            + decimal(port as nat),
        socket_of(
            decimal(ip.a as nat) + seq!['.'] + decimal(ip.b as nat) + seq!['.'] + decimal(
                ip.c as nat,
            ) + seq!['.'] + decimal(ip.d as nat) + seq![':'] + decimal(port as nat),
        ) == Some(SocketAddr::V4 { ip, port }),
        socket_text(SocketAddr::V6 { ip: v6, port, scope_id: 0 }) == seq!['['] + ip_text(
            IpAddr::V6(v6),
        ) + seq![']', ':'] + decimal(port as nat),
        ip_text(IpAddr::V4(ip)) == decimal(ip.a as nat) + seq!['.'] + decimal(ip.b as nat)
            + seq!['.'] + decimal(ip.c as nat) + seq!['.'] + decimal(ip.d as nat),
{
    law_socket_text_read_back(SocketAddr::V4 { ip, port });
    assert(seq!['['] + v6_text(v6) + Seq::<char>::empty() + seq![']', ':'] + decimal(port as nat)
        =~= seq!['['] + v6_text(v6) + seq![']', ':'] + decimal(port as nat));
}

/// An IPv6 address without two zeros in a row is written as its eight numbers in hexadecimal, the
/// first in front, with colons between.
pub proof fn law_full_v6_text(ip: Ipv6Addr)
    requires
        forall|i: int|
            0 <= i < 7 ==> #[trigger] groups(ip)[i] != 0 || groups(ip)[i + 1] != 0,
    ensures
        ip_text(IpAddr::V6(ip)) == hexadecimal(ip.g0 as nat) + seq![':'] + hexadecimal(ip.g1 as nat)
            + seq![':'] + hexadecimal(ip.g2 as nat) + seq![':'] + hexadecimal(ip.g3 as nat) + seq![
            ':',
        ] + hexadecimal(ip.g4 as nat) + seq![':'] + hexadecimal(ip.g5 as nat) + seq![':']
            + hexadecimal(ip.g6 as nat) + seq![':'] + hexadecimal(ip.g7 as nat),
{
    let g = groups(ip);
    let at = longest_zeros(g, 8);
    assert(g[0] != 0 || g[1] != 0);
    assert(!is_mapped(ip));
    reveal_with_fuel(zeros_from, 3);
    assert(zeros_from(g, at) <= 1) by {
        if 0 <= at < 7 {
            assert(g[at] != 0 || g[at + 1] != 0);
        }
    }
    reveal_with_fuel(group_text, 9);
    assert(g.drop_last() =~= seq![ip.g0, ip.g1, ip.g2, ip.g3, ip.g4, ip.g5, ip.g6]);
    assert(g.drop_last().drop_last() =~= seq![ip.g0, ip.g1, ip.g2, ip.g3, ip.g4, ip.g5]);
    assert(g.drop_last().drop_last().drop_last() =~= seq![ip.g0, ip.g1, ip.g2, ip.g3, ip.g4]);
    let h = seq![ip.g0, ip.g1, ip.g2, ip.g3, ip.g4];
    assert(h.drop_last() =~= seq![ip.g0, ip.g1, ip.g2, ip.g3]);
    assert(h.drop_last().drop_last() =~= seq![ip.g0, ip.g1, ip.g2]);
    assert(h.drop_last().drop_last().drop_last() =~= seq![ip.g0, ip.g1]);
    assert(seq![ip.g0, ip.g1].drop_last() =~= seq![ip.g0]);
}

/// The zeros that are left out of an IPv6 text are a longest run of them, the first where several
/// are as long.
pub proof fn law_longest_zeros(g: Seq<u16>, i: int)
    requires
        g.len() == 8,
        0 <= i < 8,
    ensures
        0 <= longest_zeros(g, 8) < 8,
        zeros_from(g, i) <= zeros_from(g, longest_zeros(g, 8)),
        i < longest_zeros(g, 8) ==> zeros_from(g, i) < zeros_from(g, longest_zeros(g, 8)),
{
    lemma_longest_zeros(g, 8, i);
}

proof fn lemma_longest_zeros(g: Seq<u16>, n: nat, i: int)
    requires
        1 <= n,
        0 <= i < n,
    ensures
        0 <= longest_zeros(g, n) < n,
        zeros_from(g, i) <= zeros_from(g, longest_zeros(g, n)),
        i < longest_zeros(g, n) ==> zeros_from(g, i) < zeros_from(g, longest_zeros(g, n)),
    decreases n,
{
    if n > 1 {
        if i < n - 1 {
            lemma_longest_zeros(g, (n - 1) as nat, i);
        } else {
            lemma_longest_zeros(g, (n - 1) as nat, 0);
        }
    }
}

} // verus!
