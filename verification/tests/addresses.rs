//! Addresses, prefixes and their texts.
use reflex_tun::addr::{
    addr_in_prefix_v4, addr_in_prefix_v6, broadcast_addr_v4, has_next_addr_v4, has_next_addr_v6,
    is_global_unicast_v4, is_global_unicast_v6, network_v4, network_v6, prefix_len_to_mask_v4,
    IpAddr, Ipv4Addr, Ipv6Addr, SocketAddr,
};
use reflex_tun::render::{dec_string, hex_string, ip_string, prefix_string};
use reflex_tun::text::{parse_addr_prefix, parse_ip};
use reflex_tun::types::{socket_string, Target};

fn v4(s: &str) -> Ipv4Addr {
    match parse_ip(s).unwrap() {
        IpAddr::V4(a) => a,
        IpAddr::V6(_) => panic!("not an IPv4 address"),
    }
}

fn v6(s: &str) -> Ipv6Addr {
    match parse_ip(s).unwrap() {
        IpAddr::V6(a) => a,
        IpAddr::V4(_) => panic!("not an IPv6 address"),
    }
}

#[test]
fn test_parse_addr_prefix() {
    let (ip, len) = parse_addr_prefix("198.18.0.1/16").unwrap();
    assert_eq!(ip, parse_ip("198.18.0.1").unwrap());
    assert_eq!(ip, IpAddr::V4(Ipv4Addr::new(198, 18, 0, 1)));
    assert_eq!(len, 16);
}

#[test]
fn test_parse_addr_prefix_ipv6() {
    let (ip, len) = parse_addr_prefix("fd00::1/126").unwrap();
    assert!(ip.is_ipv6());
    assert_eq!(len, 126);
}

#[test]
fn test_parse_addr_prefix_invalid() {
    assert!(parse_addr_prefix("198.18.0.1").is_none());
    assert!(parse_addr_prefix("198.18.0.1/33").is_none());
}

#[test]
fn test_addr_in_prefix_v4() {
    assert!(addr_in_prefix_v4(v4("198.18.0.5"), v4("198.18.0.0"), 16));
    assert!(!addr_in_prefix_v4(v4("10.0.0.1"), v4("198.18.0.0"), 16));
    assert!(addr_in_prefix_v4(v4("10.0.0.1"), v4("0.0.0.0"), 0));
}

#[test]
fn test_has_next_addr_v4() {
    assert!(has_next_addr_v4(v4("198.18.0.1"), 16));
    assert!(!has_next_addr_v4(v4("198.18.0.1"), 32));
    assert!(!has_next_addr_v4(v4("198.18.0.255"), 24));
    assert!(has_next_addr_v4(v4("198.18.0.1"), 30));
    assert!(has_next_addr_v4(v4("198.18.0.2"), 30));
    assert!(!has_next_addr_v4(v4("198.18.0.3"), 30));
    assert!(!has_next_addr_v4(v4("255.255.255.255"), 0));
    assert!(has_next_addr_v4(v4("1.2.3.4"), 0));
}

#[test]
fn test_has_next_addr_v6() {
    assert!(has_next_addr_v6(v6("fd00::1"), 126));
    assert!(!has_next_addr_v6(v6("fd00::1"), 128));
    assert!(!has_next_addr_v6(v6("fd00::3"), 126));
    let all_ones = Ipv6Addr { bits: u128::MAX };
    assert!(!has_next_addr_v6(all_ones, 0));
}

#[test]
fn test_addr_in_prefix_v6() {
    assert!(addr_in_prefix_v6(v6("fd00::5"), v6("fd00::"), 120));
    assert!(!addr_in_prefix_v6(v6("fd01::1"), v6("fd00::"), 120));
    assert!(addr_in_prefix_v6(v6("fd00::3"), v6("fd00::"), 126));
    assert!(!addr_in_prefix_v6(v6("fd00::4"), v6("fd00::"), 126));
}

#[test]
fn networks_masks_and_broadcasts() {
    assert_eq!(network_v4(v4("10.1.2.3"), 16), v4("10.1.0.0"));
    assert_eq!(network_v4(v4("10.1.2.3"), 0), v4("0.0.0.0"));
    assert_eq!(network_v6(v6("fd00::1234:5"), 112), v6("fd00::1234:0"));
    assert_eq!(broadcast_addr_v4(v4("10.1.2.3"), 24), v4("10.1.2.255"));
    assert_eq!(prefix_len_to_mask_v4(20), v4("255.255.240.0"));
    assert_eq!(prefix_len_to_mask_v4(0), v4("0.0.0.0"));
    assert!(is_global_unicast_v4(v4("8.8.8.8")));
    assert!(!is_global_unicast_v4(v4("0.1.2.3")));
    assert!(!is_global_unicast_v4(v4("224.0.0.1")));
    assert!(!is_global_unicast_v4(v4("255.255.255.255")));
    assert!(is_global_unicast_v6(v6("2001:db8::1")));
    assert!(!is_global_unicast_v6(v6("ff02::1")));
}

#[test]
fn address_texts_read_back() {
    for s in [
        "0.0.0.0",
        "255.255.255.255",
        "::",
        "::1",
        "fe80::1:2",
        "2001:db8:0:1:1:1:1:1",
        "2001:db8::1:0:0:1",
        "::ffff:1.2.3.4",
        "1:2:3:4:5:6:7:8",
    ] {
        assert_eq!(ip_string(parse_ip(s).unwrap()), s);
    }
    assert_eq!(prefix_string(parse_ip("fd00::1").unwrap(), 126), "fd00::1/126");
    assert_eq!(parse_ip(" 1.2.3.4\n"), parse_ip("1.2.3.4"));
    for s in ["1.2.3", "1.2.3.4.5", "256.1.1.1", "01.2.3.4", ":::", "1::2::3", "g::", "", "1:2:3:4:5:6:7"] {
        assert!(parse_ip(s).is_none(), "{}", s);
    }
    assert_eq!(dec_string(0), "0");
    assert_eq!(dec_string(u64::MAX), "18446744073709551615");
    assert_eq!(hex_string(0x2022), "2022");
    assert_eq!(hex_string(0xdeadbeef), "deadbeef");
}

#[test]
fn targets() {
    let socket = SocketAddr::new(parse_ip("2001:db8::1").unwrap(), 443);
    assert_eq!(socket_string(&socket), "[2001:db8::1]:443");
    let t = Target::Socket(socket);
    assert_eq!(t.port(), 443);
    assert_eq!(t.host(), "2001:db8::1");
    assert_eq!(t.to_text(), "[2001:db8::1]:443");
    let d = Target::Domain("example.com".to_string(), 80);
    assert_eq!(d.port(), 80);
    assert_eq!(d.host(), "example.com");
    assert_eq!(d.to_text(), "example.com:80");
    assert_eq!(
        socket_string(&d.to_socket_addr_lossy()),
        "0.0.0.0:80"
    );
}
