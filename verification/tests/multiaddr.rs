use quil_node::multiaddr::{
    archive_multiaddr_to_host_port, dht_listen_addr, parse_number, peer_service_socket,
    split_text, trim_leading, user_service_socket,
};

#[test]
fn archive_multiaddr_accepts_ip4() {
    assert_eq!(
        archive_multiaddr_to_host_port("/ip4/1.2.3.4/tcp/8340", 0),
        Some("1.2.3.4:8340".into())
    );
}

#[test]
fn archive_multiaddr_accepts_ip6() {
    assert_eq!(
        archive_multiaddr_to_host_port("/ip6/2001:db8::1/tcp/8340", 0),
        Some("[2001:db8::1]:8340".into())
    );
}

#[test]
fn archive_multiaddr_accepts_dns4() {
    assert_eq!(
        archive_multiaddr_to_host_port("/dns4/archive.example.com/tcp/8340", 0),
        Some("archive.example.com:8340".into())
    );
}

#[test]
fn archive_multiaddr_accepts_dns6() {
    assert_eq!(
        archive_multiaddr_to_host_port("/dns6/archive.example.com/tcp/8340", 0),
        Some("archive.example.com:8340".into())
    );
}

#[test]
fn archive_multiaddr_accepts_dns() {
    assert_eq!(
        archive_multiaddr_to_host_port("/dns/archive.example.com/tcp/8340", 0),
        Some("archive.example.com:8340".into())
    );
}

#[test]
fn archive_multiaddr_rejects_bare_host_port() {
    assert_eq!(archive_multiaddr_to_host_port("archive.example.com:8340", 0), None);
    assert_eq!(archive_multiaddr_to_host_port("1.2.3.4:8340", 0), None);
}

#[test]
fn archive_multiaddr_rejects_non_tcp() {
    assert_eq!(archive_multiaddr_to_host_port("/ip4/1.2.3.4/udp/8340", 0), None);
    assert_eq!(
        archive_multiaddr_to_host_port("/ip4/1.2.3.4/udp/8340/quic-v1", 0),
        None
    );
}

#[test]
fn archive_multiaddr_rejects_malformed() {
    assert_eq!(archive_multiaddr_to_host_port("", 0), None);
    assert_eq!(archive_multiaddr_to_host_port("/ip4/1.2.3.4", 0), None);
    assert_eq!(archive_multiaddr_to_host_port("/ip4//tcp/8340", 0), None);
    assert_eq!(archive_multiaddr_to_host_port("/ip4/1.2.3.4/tcp/", 0), None);
    assert_eq!(archive_multiaddr_to_host_port("/ip4/1.2.3.4/tcp/notaport", 0), None);
    assert_eq!(archive_multiaddr_to_host_port("/dns4//tcp/8340", 0), None);
}

#[test]
fn archive_multiaddr_rejects_private_ip_on_mainnet() {
    assert_eq!(archive_multiaddr_to_host_port("/ip4/192.168.1.1/tcp/8340", 0), None);
    assert_eq!(archive_multiaddr_to_host_port("/ip4/10.0.0.1/tcp/8340", 0), None);
    assert_eq!(archive_multiaddr_to_host_port("/ip4/127.0.0.1/tcp/8340", 0), None);
}

#[test]
fn archive_multiaddr_allows_private_ip_on_devnet() {
    assert_eq!(
        archive_multiaddr_to_host_port("/ip4/192.168.1.1/tcp/8340", 1),
        Some("192.168.1.1:8340".into())
    );
    assert_eq!(
        archive_multiaddr_to_host_port("/ip4/127.0.0.1/tcp/8340", 1),
        Some("127.0.0.1:8340".into())
    );
}

#[test]
fn other_private_ranges_are_refused_on_mainnet_only() {
    for host in ["172.16.0.1", "172.31.255.255", "169.254.3.4"] {
        let addr = format!("/ip4/{}/tcp/1", host);
        assert_eq!(archive_multiaddr_to_host_port(&addr, 0), None);
        assert_eq!(archive_multiaddr_to_host_port(&addr, 2), Some(format!("{}:1", host)));
    }
    for host in ["172.15.0.1", "172.32.0.1", "192.167.1.1", "169.253.1.1", "11.0.0.1"] {
        let addr = format!("/ip4/{}/tcp/1", host);
        assert_eq!(archive_multiaddr_to_host_port(&addr, 0), Some(format!("{}:1", host)));
    }
}

#[test]
fn octets_and_ports_have_limits() {
    assert_eq!(archive_multiaddr_to_host_port("/ip4/1.2.3.256/tcp/1", 0), None);
    assert_eq!(archive_multiaddr_to_host_port("/ip4/1.2.3/tcp/1", 0), None);
    assert_eq!(archive_multiaddr_to_host_port("/ip4/1.2.3.04/tcp/1", 0), None);
    assert_eq!(archive_multiaddr_to_host_port("/ip4/1.2.3.4/tcp/65536", 0), None);
    assert_eq!(
        archive_multiaddr_to_host_port("/ip4/1.2.3.4/tcp/65535", 0),
        Some("1.2.3.4:65535".into())
    );
    assert_eq!(
        archive_multiaddr_to_host_port("/ip4/1.2.3.4/tcp/080", 0),
        Some("1.2.3.4:80".into())
    );
}

#[test]
fn ip6_hosts_are_checked() {
    for host in ["::", "::1", "1::", "1:2:3:4:5:6:7:8", "1:2:3:4:5:6:7::", "fe80::1:2", "ABCD::ef01"] {
        let addr = format!("/ip6/{}/tcp/9", host);
        assert_eq!(archive_multiaddr_to_host_port(&addr, 0), Some(format!("[{}]:9", host)));
    }
    for host in ["1", ":", ":::", "1:2:3:4:5:6:7", "1:2:3:4:5:6:7:8:9", "1::2::3", "12345::", "g::", ":1::2"] {
        let addr = format!("/ip6/{}/tcp/9", host);
        assert_eq!(archive_multiaddr_to_host_port(&addr, 0), None, "{}", host);
    }
}

#[test]
fn listen_addresses_fall_back_on_defaults() {
    assert_eq!(user_service_socket(""), "127.0.0.1:8337");
    assert_eq!(user_service_socket("/ip4/127.0.0.1/tcp/9000"), "127.0.0.1:9000");
    assert_eq!(user_service_socket("ip4/127.0.0.1/tcp/9000/extra"), "127.0.0.1:9000");
    assert_eq!(user_service_socket("//ip4/1.1.1.1/tcp/1"), "1.1.1.1:1");
    assert_eq!(user_service_socket("/ip4/127.0.0.1/udp/9000"), "127.0.0.1:8337");
    assert_eq!(peer_service_socket("/ip6/::1/tcp/9000"), "0.0.0.0:8340");
    assert_eq!(peer_service_socket("/ip4/0.0.0.0/tcp/8341"), "0.0.0.0:8341");
}

#[test]
fn bootstrap_peers_have_a_default_address() {
    assert_eq!(dht_listen_addr(""), "/ip4/0.0.0.0/udp/8336/quic-v1");
    assert_eq!(dht_listen_addr("/ip4/9.9.9.9/udp/1/quic-v1"), "/ip4/9.9.9.9/udp/1/quic-v1");
}

#[test]
fn text_is_taken_apart() {
    assert_eq!(split_text("", '/'), vec![""]);
    assert_eq!(split_text("/a//b/", '/'), vec!["", "a", "", "b", ""]);
    assert_eq!(trim_leading("//a/", '/'), "a/");
    assert_eq!(trim_leading("", '/'), "");
    assert_eq!(parse_number("0255", 256), Some(255));
    assert_eq!(parse_number("", 256), None);
    assert_eq!(parse_number("99999999999999999999", 65536), None);
}
