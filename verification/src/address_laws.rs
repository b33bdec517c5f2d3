//! Laws of the texts that name where a node is: their parts, the numbers in them, and
//! the hosts and sockets that they stand for.

use vstd::prelude::*;

use crate::codec::{hex_value, sha256_of};
use crate::multiaddr::{
    decimal_value, gap_at, groups_between, host_port, ipv4_octets, is_group, is_ipv6, is_private,
    number_below, octet_of, parts_of, socket_of, without_leading,
};
use crate::peer_id::{key_encoding, key_multihash};
use crate::text::{decimal_seq, digit_char, part_at};

verus! {

/// The parts one after the other, with a separator between each two.
pub open spec fn joined(parts: Seq<Seq<char>>, sep: char) -> Seq<char>
    decreases parts.len(),
{
    if parts.len() == 0 {
        Seq::empty()
    } else if parts.len() == 1 {
        parts[0]
    } else {
        joined(parts.drop_last(), sep).push(sep) + parts.last()
    }
}

/// Is there no separator in the text?
pub open spec fn is_plain(s: Seq<char>, sep: char) -> bool {
    forall|i: int| 0 <= i < s.len() ==> #[trigger] s[i] != sep
}

/// A text goes on with a part exactly where the part's characters stand there.
pub proof fn law_part_stands_there(s: Seq<char>, i: int, part: Seq<char>)
    requires
        0 <= i,
    ensures
        part_at(s, i, part) <==> i + part.len() <= s.len() && forall|k: int|
            0 <= k < part.len() ==> s[i + k] == #[trigger] part[k],
{
    if i + part.len() <= s.len() {
        let t = s.subrange(i, i + part.len());
        if t == part {
            assert forall|k: int| 0 <= k < part.len() implies s[i + k] == #[trigger] part[k] by {
                assert(t[k] == s[i + k]);
            }
        }
        if forall|k: int| 0 <= k < part.len() ==> s[i + k] == #[trigger] part[k] {
            assert(t =~= part);
        }
    }
}

/// A text is its parts with the separator between them, and no part holds one.
pub proof fn law_parts_make_the_text(s: Seq<char>, sep: char)
    ensures
        joined(parts_of(s, sep), sep) == s,
        parts_of(s, sep).len() >= 1,
        forall|i: int| 0 <= i < parts_of(s, sep).len() ==> is_plain(#[trigger] parts_of(s, sep)[i], sep),
    decreases s.len(),
{
    let p = parts_of(s, sep);
    if s.len() == 0 {
        assert(p.len() == 1);
    } else {
        let front = s.drop_last();
        let before = parts_of(front, sep);
        law_parts_make_the_text(front, sep);
        assert(s =~= front.push(s.last()));
        if s.last() == sep {
            assert(p.drop_last() =~= before);
            assert(joined(before, sep).push(sep) + Seq::<char>::empty() =~= s);
            assert(p.len() >= 2);
            assert forall|i: int| 0 <= i < p.len() implies is_plain(#[trigger] p[i], sep) by {
                if i < before.len() {
                    assert(is_plain(before[i], sep));
                }
            }
        } else {
            assert forall|i: int| 0 <= i < p.len() implies is_plain(#[trigger] p[i], sep) by {
                assert(is_plain(before[i], sep));
            }
            if before.len() == 1 {
                assert(p.len() == 1);
                assert(p[0] == before[0].push(s.last()));
            } else {
                assert(p.drop_last() =~= before.drop_last());
                assert(joined(before.drop_last(), sep).push(sep) + before.last().push(s.last())
                    =~= (joined(before.drop_last(), sep).push(sep) + before.last()).push(s.last()));
            }
        }
    }
}

/// A text without a separator is its own only part.
pub proof fn law_plain_text_is_one_part(s: Seq<char>, sep: char)
    requires
        is_plain(s, sep),
    ensures
        parts_of(s, sep) == seq![s],
    decreases s.len(),
{
    if s.len() > 0 {
        let front = s.drop_last();
        assert forall|i: int| 0 <= i < front.len() implies #[trigger] front[i] != sep by {
            assert(s[i] != sep);
        }
        law_plain_text_is_one_part(front, sep);
        assert(s[s.len() - 1] != sep);
        assert(front.push(s.last()) =~= s);
        assert(parts_of(s, sep) =~= seq![s]);
    } else {
        assert(s =~= Seq::<char>::empty());
    }
}

/// A separator between two texts parts them, and their own parts stay.
pub proof fn law_separator_parts(a: Seq<char>, b: Seq<char>, sep: char)
    ensures
        parts_of(a.push(sep) + b, sep) == parts_of(a, sep) + parts_of(b, sep),
    decreases b.len(),
{
    let s = a.push(sep) + b;
    if b.len() == 0 {
        assert(s =~= a.push(sep));
        assert(s.drop_last() =~= a);
        assert(parts_of(b, sep) =~= seq![Seq::<char>::empty()]);
        assert(parts_of(s, sep) =~= parts_of(a, sep) + parts_of(b, sep));
    } else {
        let front = b.drop_last();
        law_separator_parts(a, front, sep);
        law_parts_make_the_text(front, sep);
        assert(s.drop_last() =~= a.push(sep) + front);
        assert(s.last() == b.last());
        assert(parts_of(s, sep) =~= parts_of(a, sep) + parts_of(b, sep));
    }
}

/// What is taken away at a text's beginning is the character alone, and all of it.
pub proof fn law_leading_characters_go(s: Seq<char>, c: char)
    ensures
        ({
            let rest = without_leading(s, c);
            let k = s.len() - rest.len();
            &&& 0 <= k
            &&& rest == s.skip(k)
            &&& forall|j: int| 0 <= j < k ==> #[trigger] s[j] == c
            &&& rest.len() > 0 ==> rest[0] != c
        }),
    decreases s.len(),
{
    if s.len() > 0 && s[0] == c {
        let t = s.drop_first();
        law_leading_characters_go(t, c);
        let k = s.len() - without_leading(s, c).len();
        assert(t.skip(k - 1) =~= s.skip(k));
        assert forall|j: int| 0 <= j < k implies #[trigger] s[j] == c by {
            if j > 0 {
                assert(t[j - 1] == s[j]);
            }
        }
    } else {
        assert(s.skip(0) =~= s);
    }
}

/// Digits spell a number, each ten times less than the one before it, and no other
/// characters do.
pub proof fn law_digits_spell(s: Seq<char>, c: char)
    ensures
        decimal_value(Seq::<char>::empty()) == Some(0nat),
        decimal_value(s) is Some <==> forall|i: int| 0 <= i < s.len() ==> '0' <= #[trigger] s[i] <= '9',
        decimal_value(s) is Some && '0' <= c <= '9' ==> decimal_value(s.push(c)) == Some(
            (10 * decimal_value(s)->Some_0 + (c as int - 48)) as nat,
        ),
    decreases s.len(),
{
    if s.len() > 0 {
        let front = s.drop_last();
        law_digits_spell(front, c);
        if decimal_value(s) is Some {
            assert forall|i: int| 0 <= i < s.len() implies '0' <= #[trigger] s[i] <= '9' by {
                if i < front.len() {
                    assert(front[i] == s[i]);
                }
            }
        }
        if forall|i: int| 0 <= i < s.len() ==> '0' <= #[trigger] s[i] <= '9' {
            assert forall|i: int| 0 <= i < front.len() implies '0' <= #[trigger] front[i] <= '9' by {
                assert(front[i] == s[i]);
            }
            assert('0' <= s[s.len() - 1] <= '9');
        }
    }
    assert(s.push(c).drop_last() =~= s);
}

/// A number's decimal text spells the number, and has no zero in front.
pub proof fn law_decimal_round_trip(n: nat)
    ensures
        decimal_value(decimal_seq(n)) == Some(n),
        decimal_seq(n).len() >= 1,
        n >= 10 ==> decimal_seq(n).len() >= 2,
        n > 0 ==> decimal_seq(n)[0] != '0',
        is_plain(decimal_seq(n), '.') && is_plain(decimal_seq(n), '/'),
        forall|i: int| 0 <= i < decimal_seq(n).len() ==> '0' <= #[trigger] decimal_seq(n)[i] <= '9',
    decreases n,
{
    reveal_with_fuel(decimal_value, 2);
    if n < 10 {
        let s = seq![digit_char(n)];
        assert(s.drop_last() =~= Seq::<char>::empty());
        assert(decimal_seq(n) == s);
    } else {
        law_decimal_round_trip(n / 10);
        let front = decimal_seq(n / 10);
        let s = decimal_seq(n);
        assert(s.drop_last() =~= front);
        assert(s[0] == front[0]);
        assert forall|i: int| 0 <= i < s.len() implies '0' <= #[trigger] s[i] <= '9' by {
            if i < front.len() {
                assert('0' <= front[i] <= '9');
            }
        }
    }
}

/// Digits without a zero in front are the decimal text of the number that they spell.
proof fn lemma_digits_are_decimal(s: Seq<char>)
    requires
        s.len() > 0,
        decimal_value(s) is Some,
        s.len() > 1 ==> s[0] != '0',
    ensures
        decimal_seq(decimal_value(s)->Some_0) == s,
        s.len() > 1 ==> decimal_value(s)->Some_0 >= 10,
        s[0] != '0' ==> decimal_value(s)->Some_0 >= 1,
    decreases s.len(),
{
    reveal_with_fuel(decimal_value, 2);
    let front = s.drop_last();
    law_digits_spell(s, '0');
    assert('0' <= s[s.len() - 1] <= '9');
    if s.len() == 1 {
        assert(front =~= Seq::<char>::empty());
        assert(decimal_seq(decimal_value(s)->Some_0) =~= s);
    } else {
        assert(front[0] == s[0]);
        lemma_digits_are_decimal(front);
        let m = decimal_value(front)->Some_0;
        let n = decimal_value(s)->Some_0;
        let d = s.last() as int - '0' as int;
        assert(n == m * 10 + d);
        assert(m >= 1);
        assert(n / 10 == m && n % 10 == d);
        assert(decimal_seq(n) =~= s);
    }
}

/// An octet is the decimal text of a number up to 255, and nothing else is one.
pub proof fn law_octets_are_numbers(s: Seq<char>, n: nat)
    ensures
        octet_of(s) == Some(n) <==> n < 256 && s == decimal_seq(n),
{
    law_decimal_round_trip(n);
    if s == decimal_seq(n) && n < 256 {
        if n == 0 {
            assert(s.len() == 1);
        }
    }
    if octet_of(s) == Some(n) {
        lemma_digits_are_decimal(s);
    }
}

/// A number in a text is read exactly where the text is digits that spell one below
/// the limit.
pub proof fn law_numbers_are_read(s: Seq<char>, limit: nat, n: nat)
    ensures
        number_below(s, limit) is Some <==> s.len() > 0 && (forall|i: int|
            0 <= i < s.len() ==> '0' <= #[trigger] s[i] <= '9') && decimal_value(s)->Some_0 < limit,
        number_below(s, limit) is Some ==> number_below(s, limit) == decimal_value(s),
        number_below(decimal_seq(n), limit) is Some <==> n < limit,
        n < limit ==> number_below(decimal_seq(n), limit) == Some(n),
{
    law_digits_spell(s, '0');
    law_decimal_round_trip(n);
}

/// The text of four numbers with dots between them.
pub open spec fn dotted(a: nat, b: nat, c: nat, d: nat) -> Seq<char> {
    (((decimal_seq(a).push('.') + decimal_seq(b)).push('.') + decimal_seq(c)).push('.')
        + decimal_seq(d))
}

proof fn lemma_four_parts(a: Seq<char>, b: Seq<char>, c: Seq<char>, d: Seq<char>, sep: char)
    requires
        is_plain(a, sep),
        is_plain(b, sep),
        is_plain(c, sep),
        is_plain(d, sep),
    ensures
        parts_of(((a.push(sep) + b).push(sep) + c).push(sep) + d, sep) == seq![a, b, c, d],
{
    law_plain_text_is_one_part(a, sep);
    law_plain_text_is_one_part(b, sep);
    law_plain_text_is_one_part(c, sep);
    law_plain_text_is_one_part(d, sep);
    law_separator_parts(a, b, sep);
    law_separator_parts(a.push(sep) + b, c, sep);
    law_separator_parts((a.push(sep) + b).push(sep) + c, d, sep);
    assert(seq![a] + seq![b] + seq![c] + seq![d] =~= seq![a, b, c, d]);
}

proof fn lemma_joined_four(p: Seq<Seq<char>>, sep: char)
    requires
        p.len() == 4,
    ensures
        joined(p, sep) == ((p[0].push(sep) + p[1]).push(sep) + p[2]).push(sep) + p[3],
{
    reveal_with_fuel(joined, 4);
    assert(p.drop_last().drop_last().drop_last()[0] == p[0]);
    assert(p.drop_last().drop_last().last() == p[1]);
    assert(p.drop_last().last() == p[2]);
}

/// An IPv4 address is the text of four numbers up to 255 with dots between them, and
/// nothing else is one.
pub proof fn law_ipv4_is_four_numbers(host: Seq<char>, a: nat, b: nat, c: nat, d: nat)
    ensures
        a < 256 && b < 256 && c < 256 && d < 256 ==> ipv4_octets(dotted(a, b, c, d)) == Some(
            seq![a, b, c, d],
        ),
        ipv4_octets(host) matches Some(o) ==> o.len() == 4 && o[0] < 256 && o[1] < 256 && o[2] < 256
            && o[3] < 256 && host == dotted(o[0], o[1], o[2], o[3]),
{
    law_decimal_round_trip(a);
    law_decimal_round_trip(b);
    law_decimal_round_trip(c);
    law_decimal_round_trip(d);
    lemma_four_parts(decimal_seq(a), decimal_seq(b), decimal_seq(c), decimal_seq(d), '.');
    law_octets_are_numbers(decimal_seq(a), a);
    law_octets_are_numbers(decimal_seq(b), b);
    law_octets_are_numbers(decimal_seq(c), c);
    law_octets_are_numbers(decimal_seq(d), d);
    if let Some(o) = ipv4_octets(host) {
        let p = parts_of(host, '.');
        law_parts_make_the_text(host, '.');
        lemma_joined_four(p, '.');
        law_octets_are_numbers(p[0], o[0]);
        law_octets_are_numbers(p[1], o[1]);
        law_octets_are_numbers(p[2], o[2]);
        law_octets_are_numbers(p[3], o[3]);
    }
}

/// An address cannot be reached from outside exactly where it is 10.x, 127.x,
/// 172.16.x to 172.31.x, 192.168.x or 169.254.x.
pub proof fn law_private_ranges(a: nat, b: nat, c: nat, d: nat)
    ensures
        is_private(seq![a, b, c, d]) <==> a == 10 || a == 127 || (a == 172 && b >= 16 && b < 32) || (a
            == 192 && b == 168) || (a == 169 && b == 254),
{
}

/// The text of an address: the kind of host, the host, and the port, each behind a
/// slash, with the word for the protocol before the port.
pub open spec fn addressed(kind: Seq<char>, host: Seq<char>, port: Seq<char>) -> Seq<char> {
    seq!['/'] + kind + seq!['/'] + host + seq!['/'] + "tcp"@ + seq!['/'] + port
}

proof fn lemma_addressed(kind: Seq<char>, host: Seq<char>, port: Seq<char>)
    requires
        is_plain(kind, '/'),
        is_plain(host, '/'),
        is_plain(port, '/'),
    ensures
        parts_of(addressed(kind, host, port), '/') == seq![
            Seq::<char>::empty(),
            kind,
            host,
            "tcp"@,
            port,
        ],
{
    let none = Seq::<char>::empty();
    reveal_strlit("tcp");
    assert(is_plain("tcp"@, '/'));
    lemma_four_parts(kind, host, "tcp"@, port, '/');
    let rest = ((kind.push('/') + host).push('/') + "tcp"@).push('/') + port;
    law_separator_parts(none, rest, '/');
    law_plain_text_is_one_part(none, '/');
    assert(none.push('/') + rest =~= addressed(kind, host, port));
    assert(seq![none] + seq![kind, host, "tcp"@, port] =~= seq![none, kind, host, "tcp"@, port]);
}

/// The words for the kinds of hosts.
proof fn lemma_kinds()
    ensures
        is_plain("ip4"@, '/') && is_plain("ip6"@, '/') && is_plain("dns"@, '/') && is_plain(
            "dns4"@,
            '/',
        ) && is_plain("dns6"@, '/'),
        "ip4"@ != "ip6"@ && "ip4"@ != "dns"@ && "ip4"@ != "dns4"@ && "ip4"@ != "dns6"@,
        "ip6"@ != "dns"@ && "ip6"@ != "dns4"@ && "ip6"@ != "dns6"@,
{
    reveal_strlit("ip4");
    reveal_strlit("ip6");
    reveal_strlit("dns");
    reveal_strlit("dns4");
    reveal_strlit("dns6");
    assert("ip4"@[0] != "dns"@[0]);
    assert("ip4"@[2] != "ip6"@[2]);
    assert("ip4"@.len() == 3 && "dns4"@.len() == 4 && "dns6"@.len() == 4);
    assert("ip6"@[0] != "dns"@[0]);
}

/// The address of an archive names the host and port that it is written with: an IPv4
/// address unless it is a private one on the main network, an IPv6 address in brackets,
/// or any DNS name. An address whose host is not of its kind, or whose port is above
/// 65535, names nothing.
pub proof fn law_addresses_name_hosts(host: Seq<char>, port: nat, network: u8)
    requires
        is_plain(host, '/'),
        host.len() > 0,
    ensures
        ({
            let p = decimal_seq(port);
            let named = Some(host + seq![':'] + p);
            &&& host_port(addressed("ip4"@, host, p), network) == if port < 65536 && ipv4_octets(
                host,
            ) is Some && !(network == 0 && is_private(ipv4_octets(host)->Some_0)) {
                named
            } else {
                None
            }
            &&& host_port(addressed("ip6"@, host, p), network) == if port < 65536 && is_ipv6(host) {
                Some(seq!['['] + host + seq![']', ':'] + p)
            } else {
                None
            }
            &&& host_port(addressed("dns"@, host, p), network) == if port < 65536 {
                named
            } else {
                None
            }
            &&& host_port(addressed("dns4"@, host, p), network) == host_port(
                addressed("dns"@, host, p),
                network,
            )
            &&& host_port(addressed("dns6"@, host, p), network) == host_port(
                addressed("dns"@, host, p),
                network,
            )
        }),
{
    lemma_kinds();
    law_decimal_round_trip(port);
    law_numbers_are_read(decimal_seq(port), 65536, port);
    lemma_addressed("ip4"@, host, decimal_seq(port));
    lemma_addressed("ip6"@, host, decimal_seq(port));
    lemma_addressed("dns"@, host, decimal_seq(port));
    lemma_addressed("dns4"@, host, decimal_seq(port));
    lemma_addressed("dns6"@, host, decimal_seq(port));
    reveal_strlit(":");
    reveal_strlit("[");
    reveal_strlit("]:");
    assert(":"@ =~= seq![':']);
    assert("["@ =~= seq!['[']);
    assert("]:"@ =~= seq![']', ':']);
}

/// Only an address of that form, of one of the five kinds and with a host that is not
/// empty, names a host and port.
pub proof fn law_only_addresses_name_hosts(raw: Seq<char>, network: u8)
    requires
        host_port(raw, network) is Some,
    ensures
        exists|kind: Seq<char>, host: Seq<char>, port: Seq<char>|
            #![trigger addressed(kind, host, port)]
            raw == addressed(kind, host, port) && host.len() > 0 && number_below(port, 65536)
                is Some && (kind == "ip4"@ || kind == "ip6"@ || kind == "dns"@ || kind == "dns4"@
                || kind == "dns6"@),
{
    let p = parts_of(raw, '/');
    law_parts_make_the_text(raw, '/');
    reveal_with_fuel(joined, 5);
    let q = p.drop_last();
    lemma_joined_four(q, '/');
    assert(q[0] == p[0] && q[1] == p[1] && q[2] == p[2] && q[3] == p[3]);
    assert(p[0] =~= Seq::<char>::empty());
    assert(raw =~= addressed(p[1], p[2], p[4]));
}

/// A listen address of the form `/ip4/HOST/tcp/PORT`, with whatever follows behind a
/// further slash and however many slashes stand before it, names the host and port.
pub proof fn law_listen_address_names_its_socket(
    host: Seq<char>,
    port: Seq<char>,
    rest: Seq<char>,
    default_socket: Seq<char>,
)
    requires
        is_plain(host, '/'),
        is_plain(port, '/'),
    ensures
        socket_of(addressed("ip4"@, host, port), default_socket) == host + seq![':'] + port,
        socket_of(addressed("ip4"@, host, port).push('/') + rest, default_socket) == host + seq![
            ':',
        ] + port,
        forall|m: Seq<char>|
            #![trigger socket_of(seq!['/'] + m, default_socket)]
            socket_of(seq!['/'] + m, default_socket) == socket_of(m, default_socket),
{
    lemma_kinds();
    reveal_strlit(":");
    reveal_strlit("ip4");
    reveal_strlit("tcp");
    assert(":"@ =~= seq![':']);
    let bare = (("ip4"@.push('/') + host).push('/') + "tcp"@).push('/') + port;
    assert(is_plain("tcp"@, '/'));
    lemma_four_parts("ip4"@, host, "tcp"@, port, '/');
    let whole = addressed("ip4"@, host, port);
    assert(whole =~= seq!['/'] + bare);
    assert(whole.drop_first() =~= bare);
    assert(bare[0] == 'i');
    assert(without_leading(bare, '/') == bare);
    assert(without_leading(whole, '/') == bare) by {
        assert(whole[0] == '/');
    }
    let more = whole.push('/') + rest;
    let behind = bare.push('/') + rest;
    assert(more.drop_first() =~= behind);
    assert(behind[0] == 'i');
    assert(more[0] == '/');
    assert(without_leading(behind, '/') == behind);
    assert(without_leading(more, '/') == behind);
    law_separator_parts(bare, rest, '/');
    law_parts_make_the_text(rest, '/');
    assert forall|m: Seq<char>|
        #![trigger socket_of(seq!['/'] + m, default_socket)]
        socket_of(seq!['/'] + m, default_socket) == socket_of(m, default_socket) by {
        let t = seq!['/'] + m;
        assert(t[0] == '/');
        assert(t.drop_first() =~= m);
    }
}

/// Any other listen address leaves the default: one that does not begin with an IPv4
/// host, or does not go on with a TCP port.
pub proof fn law_default_socket_otherwise(m: Seq<char>, default_socket: Seq<char>)
    ensures
        ({
            let p = parts_of(m, '/');
            is_plain(m, '/') || p[0].len() > 0 && (p.len() < 4 || p[0] != "ip4"@ || p[2] != "tcp"@)
                ==> socket_of(m, default_socket) == default_socket
        }),
{
    let p = parts_of(m, '/');
    law_parts_make_the_text(m, '/');
    if is_plain(m, '/') {
        law_plain_text_is_one_part(m, '/');
        if m.len() > 0 {
            assert(m[0] != '/');
        }
    } else if p[0].len() > 0 {
        assert(m.len() > 0 && m[0] == p[0][0]) by {
            lemma_joined_begins(p, '/');
        }
        assert(is_plain(p[0], '/'));
        assert(p[0][0] != '/');
    }
}

proof fn lemma_joined_begins(p: Seq<Seq<char>>, sep: char)
    requires
        p.len() > 0,
        p[0].len() > 0,
    ensures
        joined(p, sep).len() > 0,
        joined(p, sep)[0] == p[0][0],
    decreases p.len(),
{
    if p.len() > 1 {
        lemma_joined_begins(p.drop_last(), sep);
    }
}

/// Are these all groups of an IPv6 address?
pub open spec fn all_groups_of(gs: Seq<Seq<char>>) -> bool {
    forall|i: int| 0 <= i < gs.len() ==> is_group(#[trigger] gs[i])
}

/// A group is one to four hexadecimal digits of either case.
pub proof fn law_groups_are_hexadecimal(s: Seq<char>)
    ensures
        is_group(s) <==> s.len() != 0 && s.len() < 5 && forall|i: int|
            0 <= i < s.len() ==> ('0' <= #[trigger] s[i] <= '9' || 'a' <= s[i] <= 'f' || 'A' <= s[i]
                <= 'F'),
{
    if is_group(s) {
        assert forall|i: int| 0 <= i < s.len() implies ('0' <= #[trigger] s[i] <= '9' || 'a' <= s[i]
            <= 'f' || 'A' <= s[i] <= 'F') by {
            assert(hex_value(s[i]) is Some);
        }
    }
}

proof fn lemma_group_is_plain(s: Seq<char>)
    requires
        is_group(s),
    ensures
        is_plain(s, ':'),
{
    assert forall|i: int| 0 <= i < s.len() implies #[trigger] s[i] != ':' by {
        assert(hex_value(s[i]) is Some);
    }
}

/// The parts that a text was joined from come back, as long as none holds the
/// separator and there is one.
pub proof fn law_joined_parts_come_back(gs: Seq<Seq<char>>, sep: char)
    requires
        gs.len() > 0,
        forall|i: int| 0 <= i < gs.len() ==> is_plain(#[trigger] gs[i], sep),
    ensures
        parts_of(joined(gs, sep), sep) == gs,
    decreases gs.len(),
{
    if gs.len() == 1 {
        assert(is_plain(gs[0], sep));
        law_plain_text_is_one_part(gs[0], sep);
        assert(seq![gs[0]] =~= gs);
    } else {
        let front = gs.drop_last();
        assert forall|i: int| 0 <= i < front.len() implies is_plain(#[trigger] front[i], sep) by {
            assert(is_plain(gs[i], sep));
        }
        law_joined_parts_come_back(front, sep);
        assert(is_plain(gs[gs.len() - 1], sep));
        law_plain_text_is_one_part(gs.last(), sep);
        law_separator_parts(joined(front, sep), gs.last(), sep);
        assert(front + seq![gs.last()] =~= gs);
    }
}

/// The parts of groups joined by colons; there is one empty part where there is no
/// group.
pub open spec fn shown(gs: Seq<Seq<char>>) -> Seq<Seq<char>> {
    if gs.len() == 0 {
        seq![Seq::<char>::empty()]
    } else {
        gs
    }
}

proof fn lemma_shown(gs: Seq<Seq<char>>)
    requires
        all_groups_of(gs),
    ensures
        parts_of(joined(gs, ':'), ':') == shown(gs),
{
    if gs.len() == 0 {
        law_plain_text_is_one_part(joined(gs, ':'), ':');
    } else {
        assert forall|i: int| 0 <= i < gs.len() implies is_plain(#[trigger] gs[i], ':') by {
            assert(is_group(gs[i]));
            lemma_group_is_plain(gs[i]);
        }
        law_joined_parts_come_back(gs, ':');
    }
}

/// Eight groups with colons between them are an IPv6 address, and so are up to seven
/// with two colons in one place, which may be the beginning or the end.
pub proof fn law_groups_make_ipv6(left: Seq<Seq<char>>, right: Seq<Seq<char>>)
    requires
        all_groups_of(left),
        all_groups_of(right),
    ensures
        left.len() == 8 ==> is_ipv6(joined(left, ':')),
        left.len() + right.len() <= 7 ==> is_ipv6(
            joined(left, ':').push(':').push(':') + joined(right, ':'),
        ),
{
    lemma_shown(left);
    lemma_shown(right);
    if left.len() == 8 {
        assert(groups_between(parts_of(joined(left, ':'), ':'), 0, 8)) by {
            assert forall|i: int| 0 <= i < 8 implies is_group(#[trigger] left[i]) by {}
        }
    }
    if left.len() + right.len() <= 7 {
        let l = joined(left, ':');
        let r = joined(right, ':');
        let host = l.push(':').push(':') + r;
        let none = Seq::<char>::empty();
        law_separator_parts(l, none, ':');
        law_plain_text_is_one_part(none, ':');
        assert(l.push(':') + none =~= l.push(':'));
        law_separator_parts(l.push(':'), r, ':');
        let p = parts_of(host, ':');
        assert(p == shown(left) + seq![none] + shown(right));
        let g = shown(left).len() as int;
        let n = p.len() as int;
        assert(p[g] == none);
        assert forall|i: int| 0 <= i < left.len() implies is_group(#[trigger] p[i]) by {
            assert(is_group(left[i]));
        }
        assert forall|i: int| g + 1 <= i < g + 1 + right.len() implies is_group(
            #[trigger] p[i],
        ) by {
            assert(is_group(right[i - g - 1]));
        }
        if left.len() == 0 {
            assert(p[0] == none);
        } else {
            assert(is_group(p[0]));
            if right.len() > 0 {
                assert(is_group(p[n - 1]));
            }
        }
        if right.len() == 0 {
            assert(p[n - 1] == none);
        }
        assert(gap_at(p, g));
    }
}

proof fn lemma_rejoined(p: Seq<Seq<char>>, g: int)
    requires
        0 < g < p.len() - 1,
        p[g].len() == 0,
    ensures
        joined(p, ':') == joined(p.take(g), ':').push(':').push(':') + joined(p.skip(g + 1), ':'),
    decreases p.len(),
{
    let front = p.drop_last();
    let n = p.len() as int;
    if g == n - 2 {
        assert(front.drop_last() =~= p.take(g));
        assert(front.last() =~= Seq::<char>::empty());
        assert(joined(front, ':') =~= joined(p.take(g), ':').push(':'));
        assert(p.skip(g + 1) =~= seq![p[n - 1]]);
    } else {
        lemma_rejoined(front, g);
        assert(front.take(g) =~= p.take(g));
        assert(front.skip(g + 1) =~= p.skip(g + 1).drop_last());
        assert(p.skip(g + 1).last() == p.last());
        let l = joined(p.take(g), ':').push(':').push(':');
        let r = joined(front.skip(g + 1), ':');
        assert((l + r).push(':') + p.last() =~= l + (r.push(':') + p.last()));
    }
}

/// Does the text stand for these groups round a gap?
pub open spec fn round_a_gap(host: Seq<char>, left: Seq<Seq<char>>, right: Seq<Seq<char>>) -> bool {
    &&& all_groups_of(left)
    &&& all_groups_of(right)
    &&& left.len() + right.len() <= 7
    &&& host == joined(left, ':').push(':').push(':') + joined(right, ':')
}

/// Nothing else is an IPv6 address: every one is eight groups with colons between them,
/// or up to seven round one gap of two colons.
pub proof fn law_ipv6_is_made_of_groups(host: Seq<char>)
    requires
        is_ipv6(host),
    ensures
        (exists|gs: Seq<Seq<char>>|
            #![trigger all_groups_of(gs)]
            all_groups_of(gs) && gs.len() == 8 && host == joined(gs, ':')) || exists|
            left: Seq<Seq<char>>,
            right: Seq<Seq<char>>,
        | #[trigger]
            round_a_gap(host, left, right),
{
    let p = parts_of(host, ':');
    let n = p.len() as int;
    law_parts_make_the_text(host, ':');
    if n == 8 && groups_between(p, 0, n) {
        assert(all_groups_of(p));
    } else {
        let g = choose|g: int| #[trigger] gap_at(p, g);
        lemma_rejoined(p, g);
        let none = Seq::<Seq<char>>::empty();
        let before = p.take(g);
        let behind = p.skip(g + 1);
        if g == 1 && p[0].len() == 0 {
            assert(before =~= seq![p[0]]);
            assert(joined(before, ':') =~= joined(none, ':'));
            if g + 1 == n - 1 && p[n - 1].len() == 0 {
                assert(behind =~= seq![p[n - 1]]);
                assert(joined(behind, ':') =~= joined(none, ':'));
                assert(round_a_gap(host, none, none));
            } else {
                assert forall|i: int| 0 <= i < behind.len() implies is_group(
                    #[trigger] behind[i],
                ) by {
                    assert(is_group(p[g + 1 + i]));
                }
                assert(round_a_gap(host, none, behind));
            }
        } else {
            assert forall|i: int| 0 <= i < before.len() implies is_group(#[trigger] before[i]) by {
                assert(is_group(p[i]));
            }
            if g == n - 2 && p[n - 1].len() == 0 {
                assert(behind =~= seq![p[n - 1]]);
                assert(joined(behind, ':') =~= joined(none, ':'));
                assert(round_a_gap(host, before, none));
            } else {
                assert forall|i: int| 0 <= i < behind.len() implies is_group(
                    #[trigger] behind[i],
                ) by {
                    assert(is_group(p[g + 1 + i]));
                }
                assert(round_a_gap(host, before, behind));
            }
        }
    }
}

/// A key is hashed as four bytes that tell its type and its length, and then its own
/// bytes; the peer's identifier is the SHA-256 digest of that behind the digest's code
/// and length.
pub proof fn law_peer_id_of_a_key(pubkey: Seq<u8>, i: int)
    requires
        pubkey.len() < 256,
    ensures
        key_encoding(pubkey).len() == pubkey.len() + 4,
        key_encoding(pubkey)[0] == 8,
        key_encoding(pubkey)[1] == 4,
        key_encoding(pubkey)[2] == 18,
        key_encoding(pubkey)[3] == pubkey.len(),
        0 <= i < pubkey.len() ==> key_encoding(pubkey)[4 + i] == pubkey[i],
        key_multihash(pubkey)[0] == 18,
        key_multihash(pubkey)[1] == 32,
        key_multihash(pubkey).skip(2) == sha256_of(key_encoding(pubkey)),
{
    assert(key_multihash(pubkey).skip(2) =~= sha256_of(key_encoding(pubkey)));
}

} // verus!
