//! Checksums, clamping and the packets that carry replies.
use reflex_tun::addr::{IpAddr, Ipv4Addr, Ipv6Addr, SocketAddr};
use reflex_tun::checksum::{
    checksum_with_pseudo_v4, checksum_with_pseudo_v6, internet_checksum, recompute_ipv4_checksum,
    recompute_tcp_checksum_v4, recompute_tcp_checksum_v6, udp_checksum_v4, udp_checksum_v6,
};
use reflex_tun::mtu::{
    build_fragmentation_needed, build_packet_too_big, fragment_ipv4_packet, tun_write_mtu,
};
use reflex_tun::tcp::{clamp_tcp_mss, compute_effective_mss, effective_tcp_port};
use reflex_tun::text::parse_ip;
use reflex_tun::udp::{
    build_udp_reply_packet, build_udp_reply_packet_with_template, can_reply, parse_udp_v4,
    parse_udp_v6, reply_packets, skip_ipv6_extension_headers,
};

const IPPROTO_TCP: u8 = 6;
const IPPROTO_UDP: u8 = 17;
const TCP_FLAG_SYN: u8 = 0x02;
const TCP_OPT_NOP: u8 = 1;
const TCP_OPT_MSS: u8 = 2;
const TCP_OPT_MSS_LEN: u8 = 4;

fn sock(ip: &str, port: u16) -> SocketAddr {
    SocketAddr::new(parse_ip(ip).unwrap(), port)
}

#[test]
fn test_internet_checksum_nonzero() {
    let hdr = [
        0x45u8, 0x00, 0x00, 0x3c, 0x1c, 0x46, 0x40, 0x00, 0x40, 0x06, 0x00, 0x00, 0xac, 0x10, 0x0a,
        0x63, 0xac, 0x10, 0x0a, 0x0c,
    ];
    assert_ne!(internet_checksum(&hdr), 0);
    assert_eq!(internet_checksum(&hdr), 0xb1e6);
}

#[test]
fn test_udp_checksum_v4_nonzero() {
    let src = [8u8, 8, 8, 8];
    let dst = [192u8, 168, 1, 1];
    let udp = [
        0x00, 0x35, 0x30, 0x39, 0x00, 0x0c, 0x00, 0x00, b'h', b'i', b'!', b'!',
    ];
    let cksum = udp_checksum_v4(&src, &dst, &udp);
    assert_ne!(cksum, 0);
}

fn build_syn_v4_with_mss(mss: u16) -> Vec<u8> {
    let mut pkt = vec![0u8; 20 + 24];
    pkt[0] = 0x45; // version=4, IHL=5
    pkt[9] = IPPROTO_TCP;
    pkt[12..16].copy_from_slice(&[10, 0, 0, 1]);
    pkt[16..20].copy_from_slice(&[8, 8, 8, 8]);
    let tcp_off = 20;
    pkt[tcp_off..tcp_off + 2].copy_from_slice(&0x1234u16.to_be_bytes());
    pkt[tcp_off + 2..tcp_off + 4].copy_from_slice(&0x0050u16.to_be_bytes());
    pkt[tcp_off + 12] = 0x60; // data offset = 6
    pkt[tcp_off + 13] = TCP_FLAG_SYN;
    pkt[tcp_off + 20] = TCP_OPT_MSS;
    pkt[tcp_off + 21] = TCP_OPT_MSS_LEN;
    pkt[tcp_off + 22..tcp_off + 24].copy_from_slice(&mss.to_be_bytes());
    pkt
}

#[test]
fn test_clamp_tcp_mss_v4_rewrites_when_exceeds() {
    let mut pkt = build_syn_v4_with_mss(1460);
    let changed = clamp_tcp_mss(&mut pkt, 20, 1400);
    assert!(changed);
    let mss = u16::from_be_bytes([pkt[20 + 22], pkt[20 + 23]]);
    assert_eq!(mss, 1400);
}

#[test]
fn test_clamp_tcp_mss_v4_no_rewrite_when_within() {
    let mut pkt = build_syn_v4_with_mss(1200);
    let changed = clamp_tcp_mss(&mut pkt, 20, 1400);
    assert!(!changed);
    let mss = u16::from_be_bytes([pkt[20 + 22], pkt[20 + 23]]);
    assert_eq!(mss, 1200);
}

#[test]
fn test_clamp_tcp_mss_v4_skips_non_syn() {
    let mut pkt = build_syn_v4_with_mss(1460);
    pkt[20 + 13] = 0x10;
    let changed = clamp_tcp_mss(&mut pkt, 20, 1400);
    assert!(!changed);
    let mss = u16::from_be_bytes([pkt[20 + 22], pkt[20 + 23]]);
    assert_eq!(mss, 1460);
}

#[test]
fn test_clamp_tcp_mss_v4_skips_when_no_mss_option() {
    let mut pkt = vec![0u8; 20 + 24];
    pkt[0] = 0x45;
    pkt[9] = IPPROTO_TCP;
    let tcp_off = 20;
    pkt[tcp_off + 12] = 0x60; // data offset = 6
    pkt[tcp_off + 13] = TCP_FLAG_SYN;
    pkt[tcp_off + 20] = TCP_OPT_NOP;
    pkt[tcp_off + 21] = TCP_OPT_NOP;
    pkt[tcp_off + 22] = TCP_OPT_NOP;
    pkt[tcp_off + 23] = TCP_OPT_NOP;
    let changed = clamp_tcp_mss(&mut pkt, 20, 1400);
    assert!(!changed);
}

#[test]
fn test_clamp_tcp_mss_v6_rewrites_when_exceeds() {
    let mut pkt = vec![0u8; 40 + 24];
    pkt[0] = 0x60; // IPv6 version
    pkt[6] = IPPROTO_TCP;
    let tcp_off = 40;
    pkt[tcp_off + 12] = 0x60; // data offset = 6
    pkt[tcp_off + 13] = TCP_FLAG_SYN;
    pkt[tcp_off + 20] = TCP_OPT_MSS;
    pkt[tcp_off + 21] = TCP_OPT_MSS_LEN;
    pkt[tcp_off + 22..tcp_off + 24].copy_from_slice(&1500u16.to_be_bytes());
    let changed = clamp_tcp_mss(&mut pkt, 40, 1280);
    assert!(changed);
    let mss = u16::from_be_bytes([pkt[tcp_off + 22], pkt[tcp_off + 23]]);
    assert_eq!(mss, 1280);
}

#[test]
fn test_build_udp_reply_v4_no_pi() {
    let src = sock("8.8.8.8", 53);
    let dst = sock("192.168.1.1", 12345);
    let payload = b"hello world";
    let pkt = build_udp_reply_packet(src, dst, payload).unwrap();
    assert_eq!(pkt.len(), 20 + 8 + payload.len());
    assert_eq!(pkt[0] >> 4, 4);
    assert_eq!(internet_checksum(&pkt[..20]), 0);
    let (s, d, data) = parse_udp_v4(
        &pkt[20..],
        Ipv4Addr::new(8, 8, 8, 8),
        Ipv4Addr::new(192, 168, 1, 1),
    )
    .unwrap();
    assert_eq!((s, d), (src, dst));
    assert_eq!(&data[..], payload);
}

#[test]
fn test_build_udp_reply_v6_no_pi() {
    let src = sock("2001:db8::1", 53);
    let dst = sock("fe80::1", 12345);
    let payload = b"test";
    let pkt = build_udp_reply_packet(src, dst, payload).unwrap();
    assert_eq!(pkt.len(), 40 + 8 + payload.len());
    assert_eq!(pkt[0] >> 4, 6);
}

fn build_v4_request_template(tos: u8, ip_id: u16, ttl: u8) -> Vec<u8> {
    let mut hdr = vec![0u8; 28];
    hdr[0] = 0x45; // version=4, IHL=5
    hdr[1] = tos;
    hdr[2..4].copy_from_slice(&100u16.to_be_bytes());
    hdr[4..6].copy_from_slice(&ip_id.to_be_bytes());
    hdr[6] = 0x40; // flags: DF
    hdr[7] = 0x00; // frag offset
    hdr[8] = ttl;
    hdr[9] = IPPROTO_UDP;
    hdr[12..16].copy_from_slice(&[192, 168, 1, 100]);
    hdr[16..20].copy_from_slice(&[8, 8, 8, 8]);
    hdr[20..22].copy_from_slice(&12345u16.to_be_bytes());
    hdr[22..24].copy_from_slice(&53u16.to_be_bytes());
    hdr[24..26].copy_from_slice(&92u16.to_be_bytes());
    hdr[26..28].copy_from_slice(&0u16.to_be_bytes());
    hdr
}

#[test]
fn test_build_udp_reply_v4_with_template_preserves_fields() {
    let template = build_v4_request_template(0x28, 0x1234, 55);
    let reply_src = sock("8.8.8.8", 53); // server
    let reply_dst = sock("192.168.1.100", 12345); // client
    let payload = b"reply-data";
    let pkt =
        build_udp_reply_packet_with_template(&template, reply_src, reply_dst, payload).unwrap();

    assert_eq!(pkt.len(), 20 + 8 + payload.len());
    assert_eq!(pkt[1], 0x28);
    assert_eq!(u16::from_be_bytes([pkt[4], pkt[5]]), 0x1234);
    assert_eq!(pkt[6] & 0xe0, 0x40);
    assert_eq!(pkt[8], 55);
    assert_eq!(&pkt[12..16], &[8, 8, 8, 8]);
    assert_eq!(&pkt[16..20], &[192, 168, 1, 100]);
    assert_eq!(u16::from_be_bytes([pkt[20], pkt[21]]), 53);
    assert_eq!(u16::from_be_bytes([pkt[22], pkt[23]]), 12345);
    let total = u16::from_be_bytes([pkt[2], pkt[3]]) as usize;
    assert_eq!(total, 20 + 8 + payload.len());
    let udp_len = u16::from_be_bytes([pkt[24], pkt[25]]) as usize;
    assert_eq!(udp_len, 8 + payload.len());
    assert_eq!(internet_checksum(&pkt[..20]), 0, "IP checksum invalid");
    let src_ip: [u8; 4] = pkt[12..16].try_into().unwrap();
    let dst_ip: [u8; 4] = pkt[16..20].try_into().unwrap();
    let udp_cksum = u16::from_be_bytes([pkt[26], pkt[27]]);
    let mut udp_hdr = pkt[20..].to_vec();
    udp_hdr[6] = 0;
    udp_hdr[7] = 0;
    let recomputed = udp_checksum_v4(&src_ip, &dst_ip, &udp_hdr);
    assert_eq!(udp_cksum, recomputed, "UDP checksum mismatch");
}

#[test]
fn test_build_udp_reply_v4_with_template_ip_options() {
    let mut hdr = vec![0u8; 24 + 8]; // 24 IP + 8 UDP
    hdr[0] = 0x46; // version=4, IHL=6
    hdr[1] = 0x10; // ToS
    hdr[4..6].copy_from_slice(&0xBEEFu16.to_be_bytes()); // IP ID
    hdr[8] = 48; // TTL
    hdr[9] = IPPROTO_UDP;
    hdr[12..16].copy_from_slice(&[10, 0, 0, 2]); // src = client
    hdr[16..20].copy_from_slice(&[1, 1, 1, 1]); // dst = server
    hdr[20..24].copy_from_slice(&[0x01, 0x01, 0x01, 0x00]); // NOP, NOP, NOP, EOL
    hdr[24..26].copy_from_slice(&54321u16.to_be_bytes());
    hdr[26..28].copy_from_slice(&80u16.to_be_bytes());

    let reply_src = sock("1.1.1.1", 80);
    let reply_dst = sock("10.0.0.2", 54321);
    let payload = b"ok";
    let pkt = build_udp_reply_packet_with_template(&hdr, reply_src, reply_dst, payload).unwrap();

    assert_eq!(pkt.len(), 24 + 8 + payload.len());
    assert_eq!(pkt[0], 0x46);
    assert_eq!(&pkt[20..24], &[0x01, 0x01, 0x01, 0x00]);
    assert_eq!(pkt[1], 0x10);
    assert_eq!(pkt[8], 48);
    assert_eq!(internet_checksum(&pkt[..24]), 0, "IP checksum must cover options");
}

#[test]
fn test_build_udp_reply_v6_with_template_preserves_fields() {
    let mut hdr = vec![0u8; 48];
    hdr[0] = 0x60; // version=6
    hdr[1] = 0x28;
    hdr[2..4].copy_from_slice(&[0x12, 0x34]);
    hdr[6] = IPPROTO_UDP; // next header
    hdr[7] = 37; // hop limit
    hdr[8..24].copy_from_slice(&[0xfc, 0x00, 0, 0, 0, 0, 0, 0, 0, 0, 0, 0, 0, 0, 0, 0x01]);
    hdr[24..40].copy_from_slice(&[0xfc, 0x00, 0, 0, 0, 0, 0, 0, 0, 0, 0, 0, 0, 0, 0xde, 0xad]);
    hdr[40..42].copy_from_slice(&24680u16.to_be_bytes());
    hdr[42..44].copy_from_slice(&443u16.to_be_bytes());

    let reply_src = sock("fc00::dead", 443);
    let reply_dst = sock("fc00::100", 24680);
    let payload = b"v6reply";
    let pkt = build_udp_reply_packet_with_template(&hdr, reply_src, reply_dst, payload).unwrap();

    assert_eq!(pkt.len(), 40 + 8 + payload.len());
    assert_eq!(pkt[1] & 0xf0, 0x20);
    assert_eq!(pkt[7], 37);
    assert_eq!(
        &pkt[8..24],
        &[0xfc, 0x00, 0, 0, 0, 0, 0, 0, 0, 0, 0, 0, 0, 0, 0xde, 0xad]
    );
    assert_eq!(
        &pkt[24..40],
        &[0xfc, 0x00, 0, 0, 0, 0, 0, 0, 0, 0, 0, 0, 0, 0, 0, 0x01]
    );
    assert_eq!(u16::from_be_bytes([pkt[40], pkt[41]]), 443);
    assert_eq!(u16::from_be_bytes([pkt[42], pkt[43]]), 24680);
    let plen = u16::from_be_bytes([pkt[4], pkt[5]]) as usize;
    assert_eq!(plen, 8 + payload.len());
    let src_ip: [u8; 16] = pkt[8..24].try_into().unwrap();
    let dst_ip: [u8; 16] = pkt[24..40].try_into().unwrap();
    let udp_cksum = u16::from_be_bytes([pkt[46], pkt[47]]);
    let mut udp_hdr = pkt[40..].to_vec();
    udp_hdr[6] = 0;
    udp_hdr[7] = 0;
    let recomputed = udp_checksum_v6(&src_ip, &dst_ip, &udp_hdr);
    assert_eq!(udp_cksum, recomputed, "IPv6 UDP checksum mismatch");
}

#[test]
fn test_build_udp_reply_packet_with_template_fallback() {
    let r = build_udp_reply_packet_with_template(
        &[],
        sock("8.8.8.8", 53),
        sock("1.2.3.4", 5),
        b"x",
    );
    assert!(r.is_none());
    let r = build_udp_reply_packet_with_template(
        &[0x45, 0x00],
        sock("8.8.8.8", 53),
        sock("1.2.3.4", 5),
        b"x",
    );
    assert!(r.is_none());
    let mut hdr = vec![0u8; 48];
    hdr[0] = 0x60;
    let r = build_udp_reply_packet_with_template(
        &hdr,
        sock("8.8.8.8", 53),
        sock("1.2.3.4", 5),
        b"x",
    );
    assert!(r.is_none());
}

#[test]
fn replies_without_a_template_are_made_from_scratch() {
    let list = reply_packets(&[], sock("8.8.8.8", 53), sock("10.0.0.1", 99), b"abc", 1500);
    assert_eq!(list.len(), 1);
    assert_eq!(
        Some(list[0].clone()),
        build_udp_reply_packet(sock("8.8.8.8", 53), sock("10.0.0.1", 99), b"abc")
    );
    assert!(reply_packets(&[], sock("8.8.8.8", 53), sock("::1", 99), b"abc", 1500).is_empty());
    assert!(can_reply(&[], sock("8.8.8.8", 53), sock("10.0.0.1", 99), &[0u8; 65507]));
    assert!(!can_reply(&[], sock("8.8.8.8", 53), sock("10.0.0.1", 99), &[0u8; 65508]));
}

#[test]
fn large_replies_are_split_or_reported() {
    // Made from scratch a reply must not be fragmented, so its sender is told.
    let list = reply_packets(&[], sock("8.8.8.8", 53), sock("10.0.0.1", 99), &[7u8; 2000], 1500);
    assert_eq!(list.len(), 1);
    assert_eq!((list[0][9], list[0][20], list[0][21]), (1, 3, 4));
    assert_eq!(u16::from_be_bytes([list[0][26], list[0][27]]), 1500);
    // With the flags of its request it may be.
    let mut template = build_v4_request_template(0, 1, 64);
    template[6] = 0;
    let list =
        reply_packets(&template, sock("8.8.8.8", 53), sock("192.168.1.100", 12345), &[7u8; 2000], 1500);
    assert_eq!(list.len(), 2);
    assert_eq!(list[0].len(), 1500);
    assert_eq!(u16::from_be_bytes([list[0][6], list[0][7]]), 0x2000);
    assert_eq!(u16::from_be_bytes([list[1][6], list[1][7]]), 185);
    let mut payload = list[0][20..].to_vec();
    payload.extend_from_slice(&list[1][20..]);
    assert_eq!(payload.len(), 2008);
    assert_eq!(payload[8..].to_vec(), vec![7u8; 2000]);
    // An IPv6 reply is never fragmented.
    let list = reply_packets(&[], sock("fc00::1", 53), sock("fc00::2", 99), &[7u8; 2000], 1500);
    assert_eq!(list.len(), 1);
    assert_eq!((list[0][6], list[0][40]), (58, 2));
    assert_eq!(u32::from_be_bytes([list[0][44], list[0][45], list[0][46], list[0][47]]), 1500);
}

#[test]
fn fragments_carry_valid_checksums() {
    let mut pkt =
        vec![0x45, 0, 0, 36, 0, 1, 0, 0, 64, 17, 0, 0, 10, 0, 0, 1, 10, 0, 0, 2];
    pkt.extend_from_slice(&[7u8; 16]);
    let f = fragment_ipv4_packet(&pkt, 30).unwrap();
    assert_eq!((f.len(), f[0].len(), f[1].len()), (2, 28, 28));
    assert_eq!(f[0][6..8], [0x20, 0x00]);
    assert_eq!(f[1][6..8], [0x00, 0x01]);
    assert_eq!(f[0][10..12], [0x46, 0xce]);
    assert_eq!(internet_checksum(&f[0][..20]), 0);
    assert_eq!(internet_checksum(&f[1][..20]), 0);
    let told = build_fragmentation_needed(&pkt, 30).unwrap();
    assert_eq!(internet_checksum(&told[..20]), 0);
    assert_eq!(internet_checksum(&told[20..]), 0);
}

#[test]
fn packets_that_fit_are_written_as_they_are() {
    let pkt = build_udp_reply_packet(sock("8.8.8.8", 53), sock("10.0.0.1", 99), b"abc").unwrap();
    assert_eq!(tun_write_mtu(pkt.clone(), 1500, false), vec![pkt.clone()]);
    assert_eq!(tun_write_mtu(pkt.clone(), 0, false), vec![pkt.clone()]);
    assert!(fragment_ipv4_packet(&[0x45u8; 10], 20).is_none());
    assert!(build_fragmentation_needed(&[0x45u8; 10], 20).is_none());
    assert!(build_packet_too_big(&[0x60u8; 10], 1280).is_none());
}

#[test]
fn extension_headers_are_skipped() {
    // Hop-by-hop options of eight bytes, then UDP.
    let mut data = vec![17u8, 0, 0, 0, 0, 0, 0, 0];
    data.extend_from_slice(&[1, 2, 3]);
    assert_eq!(skip_ipv6_extension_headers(0, &data), (17, &data[8..], false, true));
    assert_eq!(skip_ipv6_extension_headers(44, &data), (44, &data[..], true, false));
    assert_eq!(skip_ipv6_extension_headers(6, &data), (6, &data[..], false, true));
    assert_eq!(skip_ipv6_extension_headers(60, &[17u8]), (60, &[17u8][..], false, false));
    assert_eq!(skip_ipv6_extension_headers(43, &[17u8, 1, 0, 0]), (43, &[17u8, 1, 0, 0][..], false, false));
}

#[test]
fn datagrams_are_cut_to_their_length() {
    let udp = [0x12u8, 0x34, 0, 53, 0, 11, 0, 0, 1, 2, 3, 4, 5];
    let a = Ipv6Addr { bits: 1 };
    let b = Ipv6Addr { bits: 2 };
    let (src, dst, data) = parse_udp_v6(&udp, a, b).unwrap();
    assert_eq!(src, SocketAddr::new(IpAddr::V6(a), 0x1234));
    assert_eq!(dst, SocketAddr::new(IpAddr::V6(b), 53));
    assert_eq!(&data[..], &[1, 2, 3]);
    // A length beyond the data is cut as well.
    let udp = [0u8, 1, 0, 2, 0xff, 0xff, 0, 0, 9];
    let (_, _, data) = parse_udp_v4(&udp, Ipv4Addr::new(1, 1, 1, 1), Ipv4Addr::new(2, 2, 2, 2)).unwrap();
    assert_eq!(&data[..], &[9]);
    assert!(parse_udp_v4(&udp[..7], Ipv4Addr::new(1, 1, 1, 1), Ipv4Addr::new(2, 2, 2, 2)).is_none());
}

#[test]
fn checksums_are_filled_in() {
    let mut pkt = build_syn_v4_with_mss(1460);
    pkt[2..4].copy_from_slice(&44u16.to_be_bytes());
    recompute_ipv4_checksum(&mut pkt);
    assert_eq!(internet_checksum(&pkt[..20]), 0);
    recompute_tcp_checksum_v4(&mut pkt, 20);
    let src: [u8; 4] = pkt[12..16].try_into().unwrap();
    let dst: [u8; 4] = pkt[16..20].try_into().unwrap();
    assert_eq!(checksum_with_pseudo_v4(&src, &dst, 6, &pkt[20..]), 0);
    let mut pkt6 = vec![0u8; 60];
    pkt6[0] = 0x60;
    pkt6[5] = 20;
    pkt6[6] = 6;
    pkt6[23] = 1;
    pkt6[39] = 2;
    pkt6[52] = 0x50;
    recompute_tcp_checksum_v6(&mut pkt6, 40);
    let src: [u8; 16] = pkt6[8..24].try_into().unwrap();
    let dst: [u8; 16] = pkt6[24..40].try_into().unwrap();
    assert_eq!(checksum_with_pseudo_v6(&src, &dst, 6, &pkt6[40..]), 0);
}

#[test]
fn test_compute_effective_mss_explicit_config_wins() {
    assert_eq!(compute_effective_mss(Some(1200), 9000), Some(1200));
    assert_eq!(compute_effective_mss(Some(1460), 1500), Some(1460));
}

#[test]
fn test_compute_effective_mss_derived_from_mtu_default() {
    assert_eq!(compute_effective_mss(None, 9000), Some(8940));
    assert_eq!(compute_effective_mss(None, 1500), Some(1440));
    assert_eq!(compute_effective_mss(None, 1280), Some(1220));
}

#[test]
fn test_compute_effective_mss_small_mtu_uses_v4_formula() {
    assert_eq!(compute_effective_mss(None, 50), Some(10));
    assert_eq!(compute_effective_mss(None, 41), Some(1));
}

#[test]
fn test_compute_effective_mss_too_small_returns_none() {
    assert_eq!(compute_effective_mss(None, 40), None);
    assert_eq!(compute_effective_mss(None, 0), None);
}

#[test]
fn hijacked_name_resolution_has_its_own_port() {
    assert_eq!(effective_tcp_port(53, 1000, Some(2000), true), 2000);
    assert_eq!(effective_tcp_port(53, 1000, Some(2000), false), 1000);
    assert_eq!(effective_tcp_port(53, 1000, None, true), 1000);
    assert_eq!(effective_tcp_port(80, 1000, Some(2000), true), 1000);
}

#[test]
fn replies_leave_extension_headers_out() {
    // A fixed header, a destination options header of 8 bytes, a UDP header.
    let mut template = vec![0u8; 56];
    template[..4].copy_from_slice(&[0x62, 0x81, 0x23, 0x45]);
    template[6] = 60;
    template[7] = 37;
    template[8..10].copy_from_slice(&[0xfc, 0x00]);
    template[23] = 1;
    template[24..26].copy_from_slice(&[0xfc, 0x00]);
    template[39] = 2;
    template[40] = 17;
    template[48..50].copy_from_slice(&24680u16.to_be_bytes());
    template[50..52].copy_from_slice(&443u16.to_be_bytes());
    let server = sock("fc00::2", 443);
    let client = sock("fc00::1", 24680);
    let pkt = build_udp_reply_packet_with_template(&template, server, client, b"reply").unwrap();
    assert_eq!(pkt.len(), 53);
    // Traffic class, flow label and hop limit stay; UDP comes next.
    assert_eq!(pkt[..4], [0x62, 0x81, 0x23, 0x45]);
    assert_eq!(pkt[4..8], [0, 13, 17, 37]);
    assert_eq!((pkt[23], pkt[39]), (2, 1));
    assert_eq!(u16::from_be_bytes([pkt[40], pkt[41]]), 443);
    assert_eq!(u16::from_be_bytes([pkt[42], pkt[43]]), 24680);
    assert_eq!(u16::from_be_bytes([pkt[44], pkt[45]]), 13);
    assert_eq!(pkt[48..], *b"reply");
    // The datagram reads back as from the server to the client.
    let (src, dst) = match (parse_ip("fc00::2"), parse_ip("fc00::1")) {
        (Some(IpAddr::V6(s)), Some(IpAddr::V6(d))) => (s, d),
        _ => panic!("two IPv6 addresses"),
    };
    let (from, to, _) = parse_udp_v6(&pkt[40..], src, dst).unwrap();
    assert_eq!((from, to), (server, client));
}
