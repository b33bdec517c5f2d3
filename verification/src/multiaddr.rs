//! Addresses of the form `/ip4/1.2.3.4/tcp/8340`.

use vstd::prelude::*;
use vstd::string::*;

use crate::text::{concat2, concat3, decimal, decimal_seq};

verus! {

/// The parts of a text between the separators. There is always one more part than
/// there are separators.
pub open spec fn parts_of(s: Seq<char>, sep: char) -> Seq<Seq<char>>
    decreases s.len(),
{
    if s.len() == 0 {
        seq![Seq::empty()]
    } else {
        let before = parts_of(s.drop_last(), sep);
        if s.last() == sep {
            before.push(Seq::empty())
        } else {
            before.update(before.len() - 1, before.last().push(s.last()))
        }
    }
}

/// The texts of a list.
pub open spec fn text_views(v: Seq<String>) -> Seq<Seq<char>> {
    Seq::new(v.len(), |i: int| v[i]@)
}

/// Takes a text apart at the separators.
pub fn split_text(s: &str, sep: char) -> (r: Vec<String>)
    ensures
        text_views(r@) == parts_of(s@, sep),
        r@.len() >= 1,
{
    let n: usize = s.unicode_len();
    let mut done: Vec<String> = Vec::new();
    let mut last: String = String::new();
    let mut i: usize = 0;
    assert(s@.take(0) =~= Seq::<char>::empty());
    assert(text_views(done@).push(last@) =~= seq![Seq::<char>::empty()]);
    while i < n
        invariant
            i <= n,
            n == s@.len(),
            text_views(done@).push(last@) == parts_of(s@.take(i as int), sep),
        decreases n - i,
    {
        let c = s.get_char(i);
        let ghost before = text_views(done@).push(last@);
        proof {
            assert(s@.take(i + 1).drop_last() =~= s@.take(i as int));
            assert(s@.take(i + 1).last() == c);
        }
        if c == sep {
            done.push(last);
            assert(text_views(done@) =~= before);
            last = String::new();
        } else {
            let ghost l = last@;
            last.append(s.substring_char(i, i + 1));
            assert(last@ =~= l.push(c));
            assert(text_views(done@).push(last@) =~= before.update(
                before.len() - 1,
                before.last().push(c),
            ));
        }
        i += 1;
    }
    assert(s@.take(i as int) =~= s@);
    let ghost whole = text_views(done@).push(last@);
    done.push(last);
    assert(text_views(done@) =~= whole);
    done
}

/// A text without the given character at its beginning.
pub open spec fn without_leading(s: Seq<char>, c: char) -> Seq<char>
    decreases s.len(),
{
    if s.len() > 0 && s[0] == c {
        without_leading(s.drop_first(), c)
    } else {
        s
    }
}

/// Takes all of a character away from a text's beginning.
pub fn trim_leading(s: &str, c: char) -> (r: String)
    ensures
        r@ == without_leading(s@, c),
{
    let n: usize = s.unicode_len();
    let mut i: usize = 0;
    assert(s@.skip(0) =~= s@);
    while i < n && s.get_char(i) == c
        invariant
            i <= n,
            n == s@.len(),
            without_leading(s@, c) == without_leading(s@.skip(i as int), c),
        decreases n - i,
    {
        assert(s@.skip(i as int).drop_first() =~= s@.skip(i + 1));
        i += 1;
    }
    let r = s.substring_char(i, n);
    assert(r@ =~= s@.skip(i as int));
    r.to_owned()
}

/// Are the two texts the same?
pub fn text_eq(a: &str, b: &str) -> (r: bool)
    ensures
        r == (a@ == b@),
{
    let n: usize = a.unicode_len();
    if n != b.unicode_len() {
        return false;
    }
    let mut i: usize = 0;
    while i < n
        invariant
            i <= n,
            n == a@.len(),
            n == b@.len(),
            forall|j: int| 0 <= j < i ==> a@[j] == b@[j],
        decreases n - i,
    {
        if a.get_char(i) != b.get_char(i) {
            return false;
        }
        i += 1;
    }
    assert(a@ =~= b@);
    true
}

/// The number of a decimal digit.
pub open spec fn digit_value(c: char) -> Option<nat> {
    if '0' <= c <= '9' {
        Some((c as int - '0' as int) as nat)
    } else {
        None
    }
}

/// The number that decimal digits spell, if they are digits only.
pub open spec fn decimal_value(s: Seq<char>) -> Option<nat>
    decreases s.len(),
{
    if s.len() == 0 {
        Some(0)
    } else {
        match (decimal_value(s.drop_last()), digit_value(s.last())) {
            (Some(n), Some(d)) => Some(n * 10 + d),
            _ => None,
        }
    }
}

/// The number below `limit` that a text of decimal digits spells, if it does.
pub open spec fn number_below(s: Seq<char>, limit: nat) -> Option<nat> {
    if s.len() == 0 {
        None
    } else {
        match decimal_value(s) {
            Some(n) => if n < limit {
                Some(n)
            } else {
                None
            },
            None => None,
        }
    }
}

proof fn lemma_decimal_prefix(s: Seq<char>, k: int)
    requires
        0 <= k <= s.len(),
    ensures
        decimal_value(s.take(k)) is None ==> decimal_value(s) is None,
        decimal_value(s.take(k)) is Some && decimal_value(s) is Some ==> decimal_value(
            s.take(k),
        )->Some_0 <= decimal_value(s)->Some_0,
    decreases s.len(),
{
    if k == s.len() {
        assert(s.take(k) =~= s);
    } else {
        assert(s.drop_last().take(k) =~= s.take(k));
        lemma_decimal_prefix(s.drop_last(), k);
    }
}

/// Reads a number below `limit`.
pub fn parse_number(s: &str, limit: u32) -> (r: Option<u32>)
    requires
        limit <= 0x1_0000,
    ensures
        match r {
            Some(n) => number_below(s@, limit as nat) == Some(n as nat),
            None => number_below(s@, limit as nat) is None,
        },
{
    let n: usize = s.unicode_len();
    if n == 0 {
        return None;
    }
    let mut v: u32 = 0;
    let mut i: usize = 0;
    assert(s@.take(0) =~= Seq::<char>::empty());
    while i < n
        invariant
            i <= n,
            n == s@.len(),
            limit <= 0x1_0000,
            i > 0 ==> v < limit,
            i == 0 ==> v == 0,
            n > 0,
            decimal_value(s@.take(i as int)) == Some(v as nat),
        decreases n - i,
    {
        let c = s.get_char(i);
        proof {
            assert(s@.take(i + 1).drop_last() =~= s@.take(i as int));
            assert(s@.take(i + 1).last() == c);
            lemma_decimal_prefix(s@, i + 1);
        }
        if !('0' <= c && c <= '9') {
            return None;
        }
        let d: u32 = c as u32 - '0' as u32;
        v = v * 10 + d;
        if v >= limit {
            return None;
        }
        i += 1;
    }
    assert(s@.take(i as int) =~= s@);
    Some(v)
}

/// An octet as it stands in an address: a number up to 255, without a leading zero.
pub open spec fn octet_of(s: Seq<char>) -> Option<nat> {
    if s.len() > 1 && s[0] == '0' {
        None
    } else {
        number_below(s, 256)
    }
}

/// The four octets of an IPv4 address.
pub open spec fn ipv4_octets(host: Seq<char>) -> Option<Seq<nat>> {
    let p = parts_of(host, '.');
    if p.len() == 4 && octet_of(p[0]) is Some && octet_of(p[1]) is Some && octet_of(p[2]) is Some
        && octet_of(p[3]) is Some {
        Some(
            seq![
                octet_of(p[0])->Some_0,
                octet_of(p[1])->Some_0,
                octet_of(p[2])->Some_0,
                octet_of(p[3])->Some_0,
            ],
        )
    } else {
        None
    }
}

fn parse_octet(s: &str) -> (r: Option<u32>)
    ensures
        match r {
            Some(n) => octet_of(s@) == Some(n as nat),
            None => octet_of(s@) is None,
        },
{
    if s.unicode_len() > 1 && s.get_char(0) == '0' {
        return None;
    }
    parse_number(s, 256)
}

fn parse_ipv4(host: &str) -> (r: Option<(u32, u32, u32, u32)>)
    ensures
        match r {
            Some(o) => ipv4_octets(host@) == Some(
                seq![o.0 as nat, o.1 as nat, o.2 as nat, o.3 as nat],
            ),
            None => ipv4_octets(host@) is None,
        },
{
    let p = split_text(host, '.');
    let ghost pv = text_views(p@);
    if p.len() != 4 {
        return None;
    }
    assert(pv[0] == p@[0]@ && pv[1] == p@[1]@ && pv[2] == p@[2]@ && pv[3] == p@[3]@);
    match (
        parse_octet(p[0].as_str()),
        parse_octet(p[1].as_str()),
        parse_octet(p[2].as_str()),
        parse_octet(p[3].as_str()),
    ) {
        (Some(a), Some(b), Some(c), Some(d)) => Some((a, b, c, d)),
        _ => None,
    }
}

/// Is an IPv4 address not reachable from outside: private, loopback or link-local?
pub open spec fn is_private(o: Seq<nat>) -> bool {
    ||| o[0] == 10
    ||| o[0] == 127
    ||| o[0] == 172 && 16 <= o[1] <= 31
    ||| o[0] == 192 && o[1] == 168
    ||| o[0] == 169 && o[1] == 254
}

/// A group of an IPv6 address: one to four hexadecimal digits.
pub open spec fn is_group(s: Seq<char>) -> bool {
    &&& 1 <= s.len() <= 4
    &&& forall|i: int| 0 <= i < s.len() ==> crate::codec::hex_value(#[trigger] s[i]) is Some
}

/// Are the parts of a text from `a` up to `b` groups?
pub open spec fn groups_between(p: Seq<Seq<char>>, a: int, b: int) -> bool {
    forall|i: int| a <= i < b ==> is_group(#[trigger] p[i])
}

/// Is a text an IPv6 address? It has eight groups, or fewer around one gap of two
/// colons. The gap shows as an empty part, with another one where it stands at an
/// end.
pub open spec fn is_ipv6(host: Seq<char>) -> bool {
    let p = parts_of(host, ':');
    let n = p.len() as int;
    ||| n == 8 && groups_between(p, 0, n)
    ||| exists|g: int| #[trigger] gap_at(p, g)
}

/// Does the gap of an IPv6 address stand at part `g`? The parts before and behind it
/// are groups, up to seven in all; at an end there is one more empty part.
pub open spec fn gap_at(p: Seq<Seq<char>>, g: int) -> bool {
    let n = p.len() as int;
    &&& 1 <= g < n - 1
    &&& p[g].len() == 0
    &&& if g == 1 && p[0].len() == 0 {
        &&& g + 1 == n - 1 && p[n - 1].len() == 0 || groups_between(p, g + 1, n)
        &&& n - 2 <= 7
    } else if g == n - 2 && p[n - 1].len() == 0 {
        &&& groups_between(p, 0, g)
        &&& n - 2 <= 7
    } else {
        &&& groups_between(p, 0, g)
        &&& groups_between(p, g + 1, n)
        &&& n - 1 <= 7
    }
}

fn is_hex_group(s: &str) -> (r: bool)
    ensures
        r == is_group(s@),
{
    let n: usize = s.unicode_len();
    if n == 0 || n > 4 {
        return false;
    }
    let mut i: usize = 0;
    while i < n
        invariant
            i <= n,
            n == s@.len(),
            forall|j: int| 0 <= j < i ==> crate::codec::hex_value(#[trigger] s@[j]) is Some,
        decreases n - i,
    {
        let c = s.get_char(i);
        if !(('0' <= c && c <= '9') || ('a' <= c && c <= 'f') || ('A' <= c && c <= 'F')) {
            assert(crate::codec::hex_value(s@[i as int]) is None);
            return false;
        }
        i += 1;
    }
    true
}

fn all_groups(p: &Vec<String>, a: usize, b: usize) -> (r: bool)
    requires
        a <= b <= p@.len(),
    ensures
        r == groups_between(text_views(p@), a as int, b as int),
{
    let mut i: usize = a;
    while i < b
        invariant
            a <= i <= b,
            b <= p@.len(),
            forall|j: int| a <= j < i ==> is_group(#[trigger] text_views(p@)[j]),
        decreases b - i,
    {
        if !is_hex_group(p[i].as_str()) {
            assert(!is_group(text_views(p@)[i as int]));
            return false;
        }
        i += 1;
    }
    true
}

fn has_gap(p: &Vec<String>, g: usize) -> (r: bool)
    requires
        1 <= g,
        g + 1 < p@.len(),
    ensures
        r == gap_at(text_views(p@), g as int),
{
    let n: usize = p.len();
    let ghost pv = text_views(p@);
    if p[g].as_str().unicode_len() != 0 {
        assert(pv[g as int].len() != 0);
        return false;
    }
    let first_empty = p[0].as_str().unicode_len() == 0;
    let last_empty = p[n - 1].as_str().unicode_len() == 0;
    assert(pv[0] == p@[0]@ && pv[n - 1] == p@[n - 1]@ && pv[g as int] == p@[g as int]@);
    if g == 1 && first_empty {
        ((g + 1 == n - 1 && last_empty) || all_groups(p, g + 1, n)) && n - 2 <= 7
    } else if g == n - 2 && last_empty {
        all_groups(p, 0, g) && n - 2 <= 7
    } else {
        all_groups(p, 0, g) && all_groups(p, g + 1, n) && n - 1 <= 7
    }
}

fn check_ipv6(host: &str) -> (r: bool)
    ensures
        r == is_ipv6(host@),
{
    let p = split_text(host, ':');
    let ghost pv = text_views(p@);
    let n: usize = p.len();
    if n == 8 && all_groups(&p, 0, n) {
        return true;
    }
    if n < 3 {
        return false;
    }
    let mut g: usize = 1;
    while g < n - 1
        invariant
            1 <= g <= n - 1,
            n == p@.len(),
            n >= 3,
            pv == text_views(p@),
            pv == parts_of(host@, ':'),
            forall|h: int| 1 <= h < g ==> !#[trigger] gap_at(pv, h),
        decreases n - g,
    {
        if has_gap(&p, g) {
            assert(gap_at(pv, g as int));
            return true;
        }
        g += 1;
    }
    false
}

/// The host and port that an archive's address names: an IPv4 or IPv6 address or a
/// DNS name, and a TCP port. An IPv6 address is put in brackets. On the main
/// network, which has number zero, an IPv4 address must be reachable from outside.
pub open spec fn host_port(raw: Seq<char>, network: u8) -> Option<Seq<char>> {
    let p = parts_of(raw, '/');
    if p.len() != 5 || p[0].len() != 0 || p[2].len() == 0 || p[3] != "tcp"@ {
        None
    } else {
        match number_below(p[4], 65536) {
            None => None,
            Some(port) => if p[1] == "ip4"@ {
                match ipv4_octets(p[2]) {
                    None => None,
                    Some(o) => if network == 0 && is_private(o) {
                        None
                    } else {
                        Some(p[2] + ":"@ + decimal_seq(port))
                    },
                }
            } else if p[1] == "ip6"@ {
                if is_ipv6(p[2]) {
                    Some("["@ + p[2] + "]:"@ + decimal_seq(port))
                } else {
                    None
                }
            } else if p[1] == "dns4"@ || p[1] == "dns6"@ || p[1] == "dns"@ {
                Some(p[2] + ":"@ + decimal_seq(port))
            } else {
                None
            },
        }
    }
}

/// The host and port that an archive's address names.
pub fn archive_multiaddr_to_host_port(raw: &str, network: u8) -> (r: Option<String>)
    ensures
        match r {
            Some(t) => host_port(raw@, network) == Some(t@),
            None => host_port(raw@, network) is None,
        },
{
    let p = split_text(raw, '/');
    let ghost pv = text_views(p@);
    if p.len() != 5 {
        return None;
    }
    assert(pv[0] == p@[0]@ && pv[1] == p@[1]@ && pv[2] == p@[2]@ && pv[3] == p@[3]@ && pv[4]
        == p@[4]@);
    if p[0].as_str().unicode_len() != 0 || p[2].as_str().unicode_len() == 0 || !text_eq(
        p[3].as_str(),
        "tcp",
    ) {
        return None;
    }
    let port: u32 = match parse_number(p[4].as_str(), 65536) {
        Some(n) => n,
        None => {
            return None;
        },
    };
    let port_text = decimal(port as u64);
    let host = p[2].as_str();
    if text_eq(p[1].as_str(), "ip4") {
        match parse_ipv4(host) {
            None => None,
            Some((a, b, c, d)) => {
                let private = a == 10 || a == 127 || (a == 172 && 16 <= b && b <= 31) || (a == 192
                    && b == 168) || (a == 169 && b == 254);
                if network == 0 && private {
                    None
                } else {
                    Some(concat3(host, ":", port_text.as_str()))
                }
            },
        }
    } else if text_eq(p[1].as_str(), "ip6") {
        if check_ipv6(host) {
            let head = concat3("[", host, "]:");
            Some(concat2(head.as_str(), port_text.as_str()))
        } else {
            None
        }
    } else if text_eq(p[1].as_str(), "dns4") || text_eq(p[1].as_str(), "dns6") || text_eq(
        p[1].as_str(),
        "dns",
    ) {
        Some(concat3(host, ":", port_text.as_str()))
    } else {
        None
    }
}

/// The socket that a listen address names, or the default where it is not of the
/// form `/ip4/HOST/tcp/PORT`. What follows the port is passed over.
pub open spec fn socket_of(multiaddr: Seq<char>, default_socket: Seq<char>) -> Seq<char> {
    let p = parts_of(without_leading(multiaddr, '/'), '/');
    if p.len() >= 4 && p[0] == "ip4"@ && p[2] == "tcp"@ {
        p[1] + ":"@ + p[3]
    } else {
        default_socket
    }
}

/// The socket that a listen address names, or the default.
pub fn listen_socket(multiaddr: &str, default_socket: &str) -> (r: String)
    ensures
        r@ == socket_of(multiaddr@, default_socket@),
{
    let trimmed = trim_leading(multiaddr, '/');
    let p = split_text(trimmed.as_str(), '/');
    let ghost pv = text_views(p@);
    if p.len() >= 4 {
        assert(pv[0] == p@[0]@ && pv[1] == p@[1]@ && pv[2] == p@[2]@ && pv[3] == p@[3]@);
        if text_eq(p[0].as_str(), "ip4") && text_eq(p[2].as_str(), "tcp") {
            return concat3(p[1].as_str(), ":", p[3].as_str());
        }
    }
    default_socket.to_owned()
}

/// The socket of the service for users. It is served in plain text, so by default it is
/// reachable from the local host only.
pub fn user_service_socket(multiaddr: &str) -> (r: String)
    ensures
        r@ == socket_of(multiaddr@, "127.0.0.1:8337"@),
{
    listen_socket(multiaddr, "127.0.0.1:8337")
}

/// The socket of the services for peers.
pub fn peer_service_socket(multiaddr: &str) -> (r: String)
    ensures
        r@ == socket_of(multiaddr@, "0.0.0.0:8340"@),
{
    listen_socket(multiaddr, "0.0.0.0:8340")
}

/// The address that a bootstrap peer listens on: the configured one, or a default
/// where there is none.
pub fn dht_listen_addr(configured: &str) -> (r: String)
    ensures
        r@ == if configured@.len() == 0 {
            "/ip4/0.0.0.0/udp/8336/quic-v1"@
        } else {
            configured@
        },
{
    if configured.unicode_len() == 0 {
        "/ip4/0.0.0.0/udp/8336/quic-v1".to_owned()
    } else {
        configured.to_owned()
    }
}

/// On the main network no private, loopback or link-local IPv4 address is accepted;
/// on any other network the same address is.
pub proof fn law_private_hosts_off_mainnet_only(raw: Seq<char>, network: u8)
    requires
        parts_of(raw, '/').len() == 5,
        parts_of(raw, '/')[0].len() == 0,
        parts_of(raw, '/')[1] == "ip4"@,
        parts_of(raw, '/')[2].len() > 0,
        parts_of(raw, '/')[3] == "tcp"@,
        number_below(parts_of(raw, '/')[4], 65536) is Some,
        ipv4_octets(parts_of(raw, '/')[2]) is Some,
        is_private(ipv4_octets(parts_of(raw, '/')[2])->Some_0),
    ensures
        host_port(raw, network) is Some <==> network != 0,
{
}

} // verus!
