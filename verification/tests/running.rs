//! Inbounds from their settings to their end.
use reflex_tun::addr::{Ipv4Addr, SocketAddr};
use reflex_tun::config::TunInboundConfig;
use reflex_tun::engine::{EngineAction, StackEngine, SystemEngine, UdpDispatch, UdpDispatcher};
use reflex_tun::inbound::AddressError;
use reflex_tun::offload::TunOffload;
use reflex_tun::options::StackKind;
use reflex_tun::process::StackAction;
use reflex_tun::run::{
    contexts, plan_inbound, run_start, run_step, RunEvent, RunPhase, RunSettings,
};
use reflex_tun::sessions::SessionKey;
use reflex_tun::text::parse_ip;
use reflex_tun::udp::build_udp_reply_packet;

fn sock(ip: &str, port: u16) -> SocketAddr {
    SocketAddr::new(parse_ip(ip).unwrap(), port)
}

fn config() -> TunInboundConfig {
    TunInboundConfig::new(
        "tun-in".to_string(),
        vec!["198.18.0.1/16".to_string(), "fd00::1/126".to_string()],
    )
}

fn tcp_syn(src: [u8; 4], sport: u16, dst: [u8; 4], dport: u16) -> Vec<u8> {
    let mut p = vec![0u8; 40];
    p[0] = 0x45;
    p[3] = 40;
    p[8] = 64;
    p[9] = 6;
    p[12..16].copy_from_slice(&src);
    p[16..20].copy_from_slice(&dst);
    p[20..22].copy_from_slice(&sport.to_be_bytes());
    p[22..24].copy_from_slice(&dport.to_be_bytes());
    p[32] = 0x50;
    p[33] = 2;
    p
}

#[test]
fn settings_decide() {
    let mut cfg = config();
    let plan = plan_inbound(&cfg).ok().unwrap();
    assert_eq!(plan.addresses.inet4_client, Some(Ipv4Addr::new(198, 18, 0, 2)));
    assert_eq!(plan.broadcast, Some(Ipv4Addr::new(198, 18, 255, 255)));
    assert_eq!(plan.tcp_mss, Some(8940));
    assert_eq!(plan.udp_timeout, 300);
    assert_eq!(plan.device_mtu, 9000);
    assert_eq!(
        plan.device_address,
        Some((Ipv4Addr::new(198, 18, 0, 1), Ipv4Addr::new(255, 255, 0, 0)))
    );
    assert_eq!(plan.stack, StackKind::System);
    assert_eq!(plan.loopback_v4, vec![Ipv4Addr::new(127, 0, 0, 1)]);
    cfg.address = Vec::new();
    assert_eq!(plan_inbound(&cfg).err(), Some(AddressError::NoAddress));
}

#[test]
fn a_system_run_with_routes_and_queries() {
    let s = RunSettings {
        stack: StackKind::System,
        auto_route: true,
        has_v4: true,
        has_v6: true,
        dns_hijack: true,
        slow_address: false,
    };
    let mut st = run_start();
    assert_eq!(st.phase, RunPhase::Look { attempt: 0 });
    st = run_step(&s, st, RunEvent::Looked(false));
    assert_eq!(st.phase, RunPhase::Look { attempt: 1 });
    // What does not belong to the phase changes nothing.
    assert_eq!(run_step(&s, st, RunEvent::Closed), st);
    st = run_step(&s, st, RunEvent::Looked(true));
    assert_eq!(st.phase, RunPhase::Setup);
    st = run_step(&s, st, RunEvent::SetUp);
    assert_eq!(st.phase, RunPhase::Offload);
    let offload = TunOffload { vnet_hdr: true, tcp_gso: true, udp_gso: false };
    st = run_step(&s, st, RunEvent::Offered(offload));
    assert_eq!(st.phase, RunPhase::Probe);
    assert!(st.vnet_hdr && st.merge.can_tcp() && !st.merge.can_udp());
    st = run_step(&s, st, RunEvent::Probed(false));
    assert!(!st.merge.can_tcp());
    assert_eq!(st.phase, RunPhase::ListenV4 { attempt: 0 });
    st = run_step(&s, st, RunEvent::Listening(None));
    st = run_step(&s, st, RunEvent::Listening(None));
    assert_eq!(st.phase, RunPhase::ListenV4 { attempt: 2 });
    st = run_step(&s, st, RunEvent::Listening(Some(4000)));
    assert_eq!(st.phase, RunPhase::ListenV6 { attempt: 0 });
    for _ in 0..3 {
        st = run_step(&s, st, RunEvent::Listening(None));
    }
    assert_eq!(st.phase, RunPhase::QueriesV4);
    st = run_step(&s, st, RunEvent::Listening(Some(5353)));
    st = run_step(&s, st, RunEvent::Listening(None));
    assert_eq!(st.phase, RunPhase::Serve);
    assert_eq!((st.port_v4, st.port_v6, st.dns_v4, st.dns_v6), (4000, 0, Some(5353), None));
    let plan = plan_inbound(&config()).ok().unwrap();
    let (v4, v6) = contexts(&plan, &st, true);
    assert_eq!((v4.tcp_port, v4.dns_tcp_port, v6.tcp_port), (4000, Some(5353), 0));
    st = run_step(&s, st, RunEvent::Closed);
    assert_eq!(st.phase, RunPhase::Teardown);
    st = run_step(&s, st, RunEvent::TornDown);
    assert_eq!(st.phase, RunPhase::Finished);
}

#[test]
fn runs_of_the_other_stacks() {
    let mut s = RunSettings {
        stack: StackKind::Gvisor,
        auto_route: false,
        has_v4: true,
        has_v6: false,
        dns_hijack: true,
        slow_address: true,
    };
    let mut st = run_start();
    for _ in 0..40 {
        assert!(matches!(st.phase, RunPhase::Look { .. }));
        st = run_step(&s, st, RunEvent::Looked(false));
    }
    assert_eq!(st.phase, RunPhase::Offload);
    let none = RunEvent::Offered(TunOffload::default());
    assert_eq!(run_step(&s, st, none).phase, RunPhase::Serve);
    s.stack = StackKind::Mixed;
    let mut mixed = run_step(&s, st, none);
    assert_eq!(mixed.phase, RunPhase::ListenV4 { attempt: 0 });
    assert_eq!(run_step(&s, mixed, RunEvent::Listening(Some(1))).phase, RunPhase::Serve);
    for _ in 0..3 {
        mixed = run_step(&s, mixed, RunEvent::Listening(None));
    }
    assert_eq!(mixed.phase, RunPhase::Failed);
    s.stack = StackKind::System;
    s.auto_route = true;
    let slow = run_step(&s, st, none);
    assert_eq!(slow.phase, RunPhase::Address { attempt: 0 });
    let slow = run_step(&s, slow, RunEvent::Tried(true));
    assert_eq!(slow.phase, RunPhase::ListenV4 { attempt: 0 });
}

fn engine(dns_hijack: bool) -> SystemEngine {
    let plan = plan_inbound(&config()).ok().unwrap();
    let mut st = run_start();
    st.port_v4 = 4000;
    let (v4, v6) = contexts(&plan, &st, dns_hijack);
    SystemEngine::new(
        true,
        v4,
        v6,
        plan.broadcast,
        UdpDispatcher::new(dns_hijack, true),
        1500,
        300_000_000_000,
    )
}

#[test]
fn a_connection_is_accepted_for_its_destination() {
    let mut e = engine(false);
    let out = match e.on_packet(&tcp_syn([10, 0, 0, 9], 5000, [93, 184, 216, 34], 443), 0) {
        EngineAction::Write(p) => p,
        _ => panic!("not led to the listener"),
    };
    assert_eq!(&out[16..20], &[198, 18, 0, 1]);
    let port = u16::from_be_bytes([out[20], out[21]]);
    assert_eq!(
        e.on_accept(port, 1),
        Some((sock("10.0.0.9", 5000), sock("93.184.216.34", 443)))
    );
    e.on_network_change();
    assert_eq!(e.on_accept(port, 2), None);
}

#[test]
fn datagrams_go_to_sessions_or_the_resolver() {
    let query = build_udp_reply_packet(sock("10.0.0.9", 999), sock("8.8.8.8", 53), b"q").unwrap();
    let mut e = engine(true);
    match e.on_packet(&query, 0) {
        EngineAction::Resolve { src, dst, data, .. } => {
            assert_eq!((src, dst), (sock("10.0.0.9", 999), sock("8.8.8.8", 53)));
            assert_eq!(&data[..], b"q");
        }
        _ => panic!("not for the resolver"),
    }
    // The resolver is gone: the session is used after all.
    assert!(e.udp.open_session(sock("10.0.0.9", 999), sock("8.8.8.8", 53), 0));
    let list = e.on_reply(&[], sock("8.8.8.8", 53), sock("10.0.0.9", 999), b"answer");
    assert_eq!(list.len(), 1);

    let mut e = engine(false);
    for (now, expected) in [(0u64, true), (5, false)] {
        match e.on_packet(&query, now) {
            EngineAction::Datagram { fresh, header, .. } => {
                assert_eq!(fresh, expected);
                assert_eq!(header.len(), 28);
            }
            _ => panic!("not for a session"),
        }
    }
    assert!(e.on_tick(300_000_000_000).is_empty());
    let key = SessionKey::Udp { src: sock("10.0.0.9", 999), dst: sock("8.8.8.8", 53) };
    assert_eq!(e.on_tick(300_000_000_005), vec![key]);
}

#[test]
fn userspace_stacks() {
    let mut gvisor =
        StackEngine::new(true, Vec::new(), Vec::new(), None, UdpDispatcher::new(true, false), 1500);
    let syn = tcp_syn([10, 0, 0, 9], 5000, [93, 184, 216, 34], 443);
    assert!(matches!(gvisor.on_packet(&syn, 0), StackAction::Inject));
    // Without a resolver queries go to sessions.
    assert_eq!(
        gvisor.udp.dispatch_udp(sock("10.0.0.9", 1), sock("8.8.8.8", 53), 0),
        UdpDispatch::Session { fresh: true }
    );
    let plan = plan_inbound(&config()).ok().unwrap();
    let mut st = run_start();
    st.port_v4 = 4000;
    let mut mixed = StackEngine::new(
        true,
        vec![(Ipv4Addr::new(192, 168, 1, 0), 24)],
        Vec::new(),
        Some(contexts(&plan, &st, true)),
        UdpDispatcher::new(true, true),
        1500,
    );
    let out = match mixed.on_packet(&syn, 0) {
        StackAction::Write(p) => p,
        _ => panic!("not led to the listener"),
    };
    let port = u16::from_be_bytes([out[20], out[21]]);
    assert_eq!(
        mixed.on_accept(port, 0),
        Some((sock("10.0.0.9", 5000), sock("93.184.216.34", 443)))
    );
    let local = tcp_syn([10, 0, 0, 9], 5000, [192, 168, 1, 7], 443);
    assert!(matches!(mixed.on_packet(&local, 0), StackAction::Drop));
}
