//! Port translation, sessions and what becomes of each packet.
use reflex_tun::addr::{IpAddr, Ipv4Addr, Ipv6Addr, SocketAddr};
use reflex_tun::checksum::{checksum_with_pseudo_v4, internet_checksum};
use reflex_tun::echo::{
    handle_icmpv4, handle_icmpv6, handle_packet, prepare_send_payload, reply_from_upstream,
    strip_raw_ip_header, FlowKey,
};
use reflex_tun::echo_flow::{flow_start, flow_step, FlowAction, FlowEvent, FlowStage};
use reflex_tun::process::{
    is_local_subnet_packet, process_gvisor, process_mixed, process_packet, PacketAction,
    StackAction,
};
use reflex_tun::sessions::{
    effective_udp_timeout, udp_route, SessionKey, SessionTable, UdpRoute,
};
use reflex_tun::tcp::{handle_tcp_v4, TcpContextV4, TcpContextV6};
use reflex_tun::tcp_nat::{TcpNat, NAT_PORT_END, NAT_PORT_START};
use reflex_tun::text::parse_ip;
use reflex_tun::udp::build_udp_reply_packet;

fn sock(ip: &str, port: u16) -> SocketAddr {
    SocketAddr::new(parse_ip(ip).unwrap(), port)
}

fn v4(s: &str) -> Ipv4Addr {
    match parse_ip(s).unwrap() {
        IpAddr::V4(a) => a,
        IpAddr::V6(_) => panic!("not an IPv4 address"),
    }
}

#[test]
fn test_tcp_nat_alloc_and_lookup() {
    let mut nat = TcpNat::new();
    let src = sock("1.2.3.4", 5678);
    let dst = sock("8.8.8.8", 80);
    let port = nat.lookup_or_insert(src, dst, 1).unwrap();
    assert!((NAT_PORT_START..=NAT_PORT_END).contains(&port));
    assert_eq!(nat.lookup_or_insert(src, dst, 2), Some(port));
    let (got_src, got_dst) = nat.lookup_back(port, 3).unwrap();
    assert_eq!(got_src, src);
    assert_eq!(got_dst, dst);
}

#[test]
fn test_tcp_nat_gc() {
    let mut nat = TcpNat::new();
    let src = sock("1.2.3.4", 9999);
    let dst = sock("9.9.9.9", 443);
    nat.lookup_or_insert(src, dst, 5);
    nat.gc(6, 0);
    for port in NAT_PORT_START..=NAT_PORT_END {
        assert!(nat.lookup_back(port, 6).is_none());
    }
    let again = nat.lookup_or_insert(src, dst, 7).unwrap();
    assert_eq!(again, NAT_PORT_START + 1);
}

#[test]
fn test_tcp_nat_port_exhaustion_returns_none() {
    let mut nat = TcpNat::new();
    let mut first = None;
    for i in 0..(NAT_PORT_END - NAT_PORT_START + 1) {
        let src = sock(&format!("10.0.{}.{}", i / 256, i % 256), 1000);
        let dst = sock("8.8.8.8", 80);
        let port = nat.lookup_or_insert(src, dst, 0);
        if i == 0 {
            first = port;
        }
    }
    let new_src = sock("192.168.99.1", 9999);
    let new_dst = sock("1.1.1.1", 443);
    assert_eq!(nat.lookup_or_insert(new_src, new_dst, 0), None);
    // Nothing was evicted.
    assert_eq!(
        nat.lookup_back(first.unwrap(), 0),
        Some((sock("10.0.0.0", 1000), sock("8.8.8.8", 80)))
    );
}

#[test]
fn idle_connections_leave_and_busy_ones_stay() {
    let second = 1_000_000_000u64;
    let mut nat = TcpNat::new();
    let dst = sock("9.9.9.9", 443);
    let old = nat.lookup_or_insert(sock("1.2.3.4", 1), dst, 0).unwrap();
    let busy = nat.lookup_or_insert(sock("1.2.3.4", 2), dst, 0).unwrap();
    assert_ne!(old, busy);
    nat.lookup_or_insert(sock("1.2.3.4", 2), dst, 200 * second);
    nat.gc(300 * second, 300 * second);
    assert!(nat.lookup_back(old, 0).is_some());
    nat.gc(301 * second, 300 * second);
    assert!(nat.lookup_back(old, 300 * second).is_none());
    assert!(nat.lookup_back(busy, 300 * second).is_some());
    nat.clear();
    assert!(nat.lookup_back(busy, 300 * second).is_none());
}

#[test]
fn sessions_are_kept_while_they_are_used() {
    let mut table = SessionTable::new();
    let a = SessionKey::Udp { src: sock("10.0.0.1", 1), dst: sock("8.8.8.8", 53) };
    let b = SessionKey::Echo(FlowKey {
        src: parse_ip("10.0.0.1").unwrap(),
        dst: parse_ip("8.8.8.8").unwrap(),
        id: 7,
    });
    assert!(table.touch(a, 0));
    assert!(table.touch(b, 0));
    assert!(!table.touch(a, 50));
    assert_eq!(table.gc(60, 30), vec![b]);
    assert!(!table.touch(a, 60));
    assert!(table.touch(b, 60));
    table.clear();
    assert!(table.touch(a, 61));
    assert_eq!(effective_udp_timeout(0), 300);
    assert_eq!(effective_udp_timeout(42), 42);
    assert_eq!(udp_route(sock("8.8.8.8", 53), true, true), UdpRoute::Resolver);
    assert_eq!(udp_route(sock("8.8.8.8", 53), true, false), UdpRoute::Session);
    assert_eq!(udp_route(sock("8.8.8.8", 53), false, true), UdpRoute::Session);
    assert_eq!(udp_route(sock("8.8.8.8", 54), true, true), UdpRoute::Session);
}

fn tcp_packet(src: &str, sport: u16, dst: &str, dport: u16, flags: u8) -> Vec<u8> {
    let mut p = vec![0u8; 40];
    p[0] = 0x45;
    p[3] = 40;
    p[8] = 64;
    p[9] = 6;
    p[12..16].copy_from_slice(&v4(src).bits.to_be_bytes());
    p[16..20].copy_from_slice(&v4(dst).bits.to_be_bytes());
    p[20..22].copy_from_slice(&sport.to_be_bytes());
    p[22..24].copy_from_slice(&dport.to_be_bytes());
    p[32] = 0x50;
    p[33] = flags;
    p
}

fn context_v4() -> TcpContextV4 {
    TcpContextV4 {
        server_addr: Some(v4("198.18.0.1")),
        client_addr: Some(v4("198.18.0.2")),
        loopback: Vec::new(),
        tcp_port: 7777,
        dns_tcp_port: None,
        tcp_mss: None,
        dns_hijack: false,
    }
}

fn context_v6() -> TcpContextV6 {
    TcpContextV6 {
        server_addr: None,
        client_addr: None,
        loopback: Vec::new(),
        tcp_port: 7777,
        dns_tcp_port: None,
        tcp_mss: None,
        dns_hijack: false,
    }
}

#[test]
fn connections_go_to_the_listener_and_back() {
    let mut nat = TcpNat::new();
    let ctx = context_v4();
    let syn = tcp_packet("10.0.0.9", 5000, "93.184.216.34", 443, 0x02);
    let out = handle_tcp_v4(&syn, &ctx, &mut nat, 0).unwrap();
    assert_eq!(&out[12..16], &[198, 18, 0, 2]);
    assert_eq!(&out[16..20], &[198, 18, 0, 1]);
    let port = u16::from_be_bytes([out[20], out[21]]);
    assert_eq!(u16::from_be_bytes([out[22], out[23]]), 7777);
    assert_eq!(internet_checksum(&out[..20]), 0);
    assert_eq!(checksum_with_pseudo_v4(&[198, 18, 0, 2], &[198, 18, 0, 1], 6, &out[20..]), 0);
    assert_eq!(
        nat.lookup_back(port, 0),
        Some((sock("10.0.0.9", 5000), sock("93.184.216.34", 443)))
    );
    // The listener's answer reaches the client as if from the server.
    let answer = tcp_packet("198.18.0.1", 7777, "198.18.0.2", port, 0x12);
    let back = handle_tcp_v4(&answer, &ctx, &mut nat, 1).unwrap();
    assert_eq!(&back[12..16], &[93, 184, 216, 34]);
    assert_eq!(&back[16..20], &[10, 0, 0, 9]);
    assert_eq!(u16::from_be_bytes([back[20], back[21]]), 443);
    assert_eq!(u16::from_be_bytes([back[22], back[23]]), 5000);
    // An answer to a port that leads nowhere is dropped.
    let stray = tcp_packet("198.18.0.1", 7777, "198.18.0.2", 60000, 0x12);
    assert!(handle_tcp_v4(&stray, &ctx, &mut nat, 1).is_none());
}

fn echo_v4(kind: u8) -> Vec<u8> {
    let mut p = vec![0u8; 32];
    p[0] = 0x45;
    p[3] = 32;
    p[8] = 64;
    p[9] = 1;
    p[12..16].copy_from_slice(&[10, 0, 0, 1]);
    p[16..20].copy_from_slice(&[8, 8, 8, 8]);
    p[20] = kind;
    p[24..26].copy_from_slice(&77u16.to_be_bytes());
    p[26..28].copy_from_slice(&1u16.to_be_bytes());
    p[28..32].copy_from_slice(b"ping");
    let sum = internet_checksum(&p[20..]);
    p[22..24].copy_from_slice(&sum.to_be_bytes());
    p
}

#[test]
fn echo_requests_are_answered_in_place() {
    let reply = handle_icmpv4(&echo_v4(8)).unwrap();
    assert_eq!(reply[20], 0);
    assert_eq!(&reply[12..16], &[8, 8, 8, 8]);
    assert_eq!(&reply[16..20], &[10, 0, 0, 1]);
    assert_eq!(internet_checksum(&reply[..20]), 0);
    assert_eq!(internet_checksum(&reply[20..]), 0);
    assert_eq!(&reply[28..], b"ping");
    assert!(handle_icmpv4(&echo_v4(0)).is_none());
    let mut p = vec![0u8; 48];
    p[0] = 0x60;
    p[5] = 8;
    p[6] = 58;
    p[23] = 1;
    p[39] = 2;
    p[40] = 128;
    let reply = handle_icmpv6(&p).unwrap();
    assert_eq!(reply[40], 129);
    assert_eq!((reply[23], reply[39]), (2, 1));
    p[40] = 129;
    assert!(handle_icmpv6(&p).is_none());
}

#[test]
fn echo_flows_go_out_and_come_back() {
    let request = echo_v4(8);
    let (key, payload) = handle_packet(&request).unwrap();
    assert_eq!(
        key,
        FlowKey { src: parse_ip("10.0.0.1").unwrap(), dst: parse_ip("8.8.8.8").unwrap(), id: 77 }
    );
    assert_eq!(&payload[..], &request[20..]);
    assert!(handle_packet(&echo_v4(0)).is_none());
    let sent = prepare_send_payload(&payload, false, true, None, key.dst);
    assert_eq!(internet_checksum(&sent), 0);
    // Where the system fills the checksum in, it is left out.
    let sent = prepare_send_payload(&payload, false, false, None, key.dst);
    assert_eq!(&sent[2..4], &[0, 0]);
    // What comes back on a raw socket has an IP header before it.
    let mut raw = echo_v4(0);
    raw[12..16].copy_from_slice(&[8, 8, 8, 8]);
    assert_eq!(strip_raw_ip_header(&raw).unwrap(), &raw[20..]);
    let reply = reply_from_upstream(&request, key, &raw, true, false).unwrap();
    assert_eq!(&reply[12..16], &[8, 8, 8, 8]);
    assert_eq!(&reply[16..20], &[10, 0, 0, 1]);
    assert_eq!(reply[20], 0);
    assert_eq!(u16::from_be_bytes([reply[24], reply[25]]), 77);
    assert_eq!(internet_checksum(&reply[..20]), 0);
    assert_eq!(internet_checksum(&reply[20..]), 0);
}

#[test]
fn every_packet_has_its_way() {
    let mut nat = TcpNat::new();
    let (c4, c6) = (context_v4(), context_v6());
    let udp = build_udp_reply_packet(sock("8.8.8.8", 9), sock("9.9.9.9", 53), b"query").unwrap();
    match process_packet(&udp, true, None, &c4, &c6, &mut nat, 0) {
        PacketAction::Datagram(src, dst, data, header) => {
            assert_eq!(src, sock("8.8.8.8", 9));
            assert_eq!(dst, sock("9.9.9.9", 53));
            assert_eq!(&data[..], b"query");
            assert_eq!(header, udp[..28].to_vec());
        }
        _ => panic!("not a datagram"),
    }
    match process_packet(&tcp_packet("10.0.0.9", 1, "1.1.1.1", 2, 2), true, None, &c4, &c6, &mut nat, 0) {
        PacketAction::Write(p) => assert_eq!(&p[16..20], &[198, 18, 0, 1]),
        _ => panic!("not written"),
    }
    match process_packet(&echo_v4(8), true, None, &c4, &c6, &mut nat, 0) {
        PacketAction::SendEcho(key, _) => assert_eq!(key.id, 77),
        _ => panic!("not an echo"),
    }
    let dropped = |p: &[u8], broadcast: Option<Ipv4Addr>, nat: &mut TcpNat| {
        matches!(process_packet(p, true, broadcast, &c4, &c6, nat, 0), PacketAction::Drop)
    };
    assert!(dropped(&[], None, &mut nat));
    assert!(dropped(&[0x15; 40], None, &mut nat));
    assert!(dropped(&udp, Some(Ipv4Addr::new(9, 9, 9, 9)), &mut nat));
}

#[test]
fn stacks_take_what_is_not_local() {
    let subnets = [(Ipv4Addr::new(192, 168, 1, 0), 24u8)];
    let none: [(Ipv6Addr, u8); 0] = [];
    let local = tcp_packet("10.0.0.9", 1, "192.168.1.7", 2, 2);
    let remote = tcp_packet("10.0.0.9", 1, "1.1.1.1", 2, 2);
    assert!(is_local_subnet_packet(&local, &subnets, &none));
    assert!(!is_local_subnet_packet(&remote, &subnets, &none));
    assert!(matches!(process_gvisor(&local, true, &subnets, &none), StackAction::Drop));
    assert!(matches!(process_gvisor(&remote, true, &subnets, &none), StackAction::Inject));
    let mut nat = TcpNat::new();
    let (c4, c6) = (context_v4(), context_v6());
    match process_mixed(&remote, &subnets, &none, &c4, &c6, &mut nat, 0) {
        StackAction::Write(p) => assert_eq!(&p[16..20], &[198, 18, 0, 1]),
        _ => panic!("not written"),
    }
    let udp = build_udp_reply_packet(sock("8.8.8.8", 9), sock("9.9.9.9", 53), b"query").unwrap();
    assert!(matches!(
        process_mixed(&udp, &subnets, &none, &c4, &c6, &mut nat, 0),
        StackAction::Inject
    ));
}

#[test]
fn echo_flow_runs_and_ends() {
    let key = FlowKey {
        src: IpAddr::V4(Ipv4Addr::new(10, 0, 0, 1)),
        dst: IpAddr::V4(Ipv4Addr::new(8, 8, 8, 8)),
        id: 7,
    };
    let mut request = vec![0u8; 28];
    request[0] = 0x45;
    request[9] = 1;
    request[12..16].copy_from_slice(&[10, 0, 0, 1]);
    request[16..20].copy_from_slice(&[8, 8, 8, 8]);
    request[20] = 8;
    request[25] = 7;
    let payload = request[20..].to_vec();

    let (stage, action) = flow_start(true);
    assert!(matches!(action, FlowAction::Open { raw: false }));
    // Without a datagram socket a raw one is tried, and then nothing more.
    let (raw, action) = flow_step(stage, FlowEvent::Failed, &request, key);
    assert!(matches!(action, FlowAction::Open { raw: true }));
    let (ended, action) = flow_step(raw, FlowEvent::Failed, &request, key);
    assert!(matches!(action, FlowAction::End));
    assert_eq!(ended, FlowStage::Ended);

    let (running, action) = flow_step(stage, FlowEvent::Opened(None), &request, key);
    assert!(matches!(action, FlowAction::Wait));
    let sent = match flow_step(running, FlowEvent::Request(payload.clone()), &request, key).1 {
        FlowAction::Send(data) => data,
        _ => panic!("the request is sent on"),
    };
    assert_eq!(sent[0], 8);
    let mut back = sent.clone();
    back[0] = 0;
    match flow_step(running, FlowEvent::Received(back.clone()), &request, key).1 {
        FlowAction::Write(packet) => {
            assert_eq!(packet[12..16], [8, 8, 8, 8]);
            assert_eq!(packet[16..20], [10, 0, 0, 1]);
            assert_eq!(packet[20], 0);
            assert_eq!(packet[24..26], [0, 7]);
        }
        _ => panic!("the reply is written"),
    }
    let (_, action) = flow_step(running, FlowEvent::Received(Vec::new()), &request, key);
    assert!(matches!(action, FlowAction::Wait));
    let (ended, _) = flow_step(running, FlowEvent::Closed, &request, key);
    assert_eq!(ended, FlowStage::Ended);

    // A raw socket delivers the IP header too.
    let (running, _) = flow_step(raw, FlowEvent::Opened(None), &request, key);
    let mut delivered = request.clone();
    delivered[20] = 0;
    let (_, action) = flow_step(running, FlowEvent::Received(delivered), &request, key);
    assert!(matches!(action, FlowAction::Write(_)));
    let (_, action) = flow_step(running, FlowEvent::Received(back), &request, key);
    assert!(matches!(action, FlowAction::Wait));
    let (stage, action) = flow_start(false);
    assert_eq!(stage, FlowStage::OpenRaw);
    assert!(matches!(action, FlowAction::Open { raw: true }));
}

#[test]
fn short_replies_over_ipv6_are_passed_on() {
    let key = FlowKey {
        src: parse_ip("fd00::2").unwrap(),
        dst: parse_ip("2001:db8::1").unwrap(),
        id: 7,
    };
    let mut template = vec![0u8; 48];
    template[0] = 0x60;
    template[6] = 58;
    for n in [2usize, 3] {
        let data = vec![9u8; n];
        let reply = reply_from_upstream(&template, key, &data, false, true).unwrap();
        assert_eq!(reply.len(), 40 + n);
        assert_eq!(reply[40..42], [129, 0]);
        let running = FlowStage::Running { raw: false, local: None };
        match flow_step(running, FlowEvent::Received(data), &template, key).1 {
            FlowAction::Write(packet) => assert_eq!(packet, reply),
            _ => panic!("a reply is written"),
        }
    }
    assert!(reply_from_upstream(&template, key, &[], false, true).is_none());
}
