//! Reading from and writing to a device, its settings and its neighbours.
use reflex_tun::addr::{IpAddr, Ipv4Addr, Ipv6Addr};
use reflex_tun::checksum::checksum;
use reflex_tun::config::TunInboundConfig;
use reflex_tun::dns::{dns_start, dns_step, frame_message, DnsAction, DnsEvent, DnsStage};
use reflex_tun::gro::GroDisablementFlags;
use reflex_tun::gso::{GsoError, VirtioNetHdr, VIRTIO_NET_HDR_GSO_TCPV4};
use reflex_tun::inbound::{
    bind_again, choose_stack, collect_local_subnets_v4, collect_local_subnets_v6, device_address,
    device_guid, first_broadcast, interface_name, loopback_addresses, resolve_addresses,
    AddressError,
};
use reflex_tun::interface_finder::{
    addr_in_interface, choose_interface, default_route_interface, find_interface_by_addr,
    ip_in_subnet, list_interfaces, IfEntry, Interface, InterfaceAddr, PhysicalInterfaces,
};
use reflex_tun::interface_monitor::{
    android_vpn_active, diff_events, parse_messages, parse_messages_in, rescan, scan_interfaces,
    sys_interface, AddrEntry, Debounce, InterfaceEvent, MonitorRegistry,
};
use reflex_tun::native_tun::{
    build_gro_probe_segments, do_batch_write, flags_after_probe, frame_packet, front_headroom,
    PacketQueue, StagedPacket, WriteStep,
};
use reflex_tun::octets::SniffedPrefix;
use reflex_tun::offload::{merge_flags, setup_tun_offload, tun_has_vnet_hdr, TunOffload};
use reflex_tun::options::{
    parse_prefix, parse_uid_range, prefix_to_string, Duration, Options, StackKind,
};
use reflex_tun::stack::StackState;
use reflex_tun::text::parse_ip;

fn ip(s: &str) -> IpAddr {
    parse_ip(s).unwrap()
}

#[test]
fn test_diff_events_detects_address_change() {
    let mk = |addrs: Vec<IpAddr>| InterfaceEvent {
        name: "eth0".to_string(),
        index: 2,
        up: true,
        mtu: 1500,
        addresses: addrs,
        android_vpn_enabled: false,
    };
    let a = mk(vec![ip("192.168.1.2")]);
    let b = mk(vec![ip("192.168.1.2"), ip("192.168.1.3")]);
    assert!(diff_events(&[a], &[b]).len() == 1);
    let c = mk(vec![ip("192.168.1.2")]);
    assert!(diff_events(&[c.clone()], &[c]).is_empty());
}

#[test]
fn test_parse_messages_relevant_types() {
    let mk_msg = |t: u16| -> Vec<u8> {
        let mut m = vec![0u8; 16];
        m[0..4].copy_from_slice(&16u32.to_ne_bytes());
        m[4..6].copy_from_slice(&t.to_ne_bytes());
        m
    };
    let mut buf = Vec::new();
    buf.extend_from_slice(&mk_msg(libc::RTM_NEWLINK as u16));
    assert!(parse_messages(&buf));
    let mut buf2 = Vec::new();
    buf2.extend_from_slice(&mk_msg(libc::RTM_NEWADDR as u16));
    buf2.extend_from_slice(&mk_msg(libc::RTM_DELROUTE as u16));
    assert!(parse_messages(&buf2));
    let mut buf3 = Vec::new();
    buf3.extend_from_slice(&mk_msg(2));
    assert!(!parse_messages(&buf3));
}

#[test]
fn messages_of_either_byte_order() {
    let little = [16u8, 0, 0, 0, 16, 0, 0, 0, 0, 0, 0, 0, 0, 0, 0, 0];
    let big = [0u8, 0, 0, 16, 0, 16, 0, 0, 0, 0, 0, 0, 0, 0, 0, 0];
    assert!(parse_messages_in(&little, true));
    assert!(parse_messages_in(&big, false));
    assert!(!parse_messages_in(&little[..15], true));
    // What follows an unknown message is read too.
    let mut two = vec![20u8, 0, 0, 0, 2, 0, 0, 0, 0, 0, 0, 0, 0, 0, 0, 0, 9, 9, 9, 9];
    two.extend_from_slice(&little);
    assert!(parse_messages_in(&two, true));
}

#[test]
fn interfaces_that_appear_and_vanish() {
    let mk = |name: &str, up: bool| InterfaceEvent {
        name: name.to_string(),
        index: 1,
        up,
        mtu: 1500,
        addresses: Vec::new(),
        android_vpn_enabled: false,
    };
    let (changes, kept) = rescan(vec![mk("a", true), mk("b", true)], vec![mk("b", true), mk("c", true)]);
    let names: Vec<&str> = changes.iter().map(|e| e.name.as_str()).collect();
    assert_eq!(names.len(), 2);
    assert!(names.contains(&"a") && names.contains(&"c"));
    assert_eq!(kept.len(), 2);
    assert!(!changes.iter().find(|e| e.name == "a").unwrap().up);
}

#[test]
fn interfaces_of_the_system() {
    let sys = [
        sys_interface("eth0".to_string(), Some("2\n"), Some("up\n"), Some("1500\n")),
        sys_interface("wlan0".to_string(), Some("x"), None, None),
    ];
    assert_eq!((sys[0].index, sys[0].up, sys[0].mtu), (2, true, 1500));
    assert_eq!((sys[1].index, sys[1].mtu), (0, 1500));
    let entries = [
        AddrEntry { name: "eth0".to_string(), up: true, addr: Some(ip("10.0.0.1")) },
        AddrEntry { name: "eth0".to_string(), up: true, addr: None },
        AddrEntry { name: "eth0".to_string(), up: true, addr: Some(ip("fe80::1")) },
    ];
    let events = scan_interfaces(&sys, &entries, None);
    let eth = events.iter().find(|e| e.name == "eth0").unwrap();
    assert_eq!(eth.addresses, vec![ip("10.0.0.1"), ip("fe80::1")]);
    assert_eq!(events.len(), 2);
    assert!(!android_vpn_active("0: from all lookup local\n"));
    assert!(android_vpn_active("1: x\n12000: from all fwmark 0x20000/0x20000 lookup tun\n"));
    // A system with a VPN of its own shows it.
    let off = scan_interfaces(&sys, &entries, Some(false));
    let on = scan_interfaces(&sys, &entries, Some(true));
    assert_eq!(off.len(), 3);
    assert_eq!(off[2].name, "__android_vpn__");
    assert_eq!(diff_events(&off, &on).len(), 3);
    assert!(diff_events(&on, &on).is_empty());
}

#[test]
fn changes_are_told_after_a_rest() {
    let mut d = Debounce::new(0);
    assert!(d.deadline().is_none());
    // The first change is looked at once, the next when a second is over.
    assert!(d.on_event(500));
    assert!(d.deadline().is_none());
    assert!(!d.on_event(600));
    assert_eq!(d.deadline(), Some(1500));
    d.on_deadline(1500);
    assert!(d.deadline().is_none());
    assert!(!d.on_event(2000));
    d.on_poll();
    assert!(d.deadline().is_none());
    let mut registry = MonitorRegistry::new();
    let (first, start) = registry.register();
    assert!(start);
    let (second, start) = registry.register();
    assert!(!start);
    assert_ne!(first, second);
    registry.unregister(first);
    let (third, start) = registry.register();
    assert!(!start);
    assert_ne!(third, second);
}

#[test]
fn interfaces_by_address() {
    let entries = [
        IfEntry {
            name: "eth0".to_string(),
            up: true,
            loopback: false,
            addr: InterfaceAddr::V4(Ipv4Addr::new(192, 168, 1, 2), Some(0xffff_ff00)),
        },
        IfEntry {
            name: "eth1".to_string(),
            up: true,
            loopback: false,
            addr: InterfaceAddr::V6(Ipv6Addr { bits: 0xfe80 << 112 | 1 }, Some(u128::MAX << 64)),
        },
    ];
    let list = list_interfaces(&entries);
    assert_eq!(list.len(), 2);
    assert_eq!(list[0].addrs, vec![(ip("192.168.1.2"), 24)]);
    assert!(ip_in_subnet(ip("192.168.1.2"), 24, ip("192.168.1.200")));
    assert!(!ip_in_subnet(ip("192.168.1.2"), 24, ip("192.168.2.200")));
    assert!(!ip_in_subnet(ip("192.168.1.2"), 24, ip("::1")));
    assert!(addr_in_interface(&list[0], ip("192.168.1.9")));
    assert_eq!(find_interface_by_addr(ip("fe80::9"), &list).unwrap().name, "eth1");
    assert!(find_interface_by_addr(ip("8.8.8.8"), &list).is_none());
    assert_eq!(choose_interface(ip("192.168.1.9"), &list, Some("wlan0".to_string())), Some("eth0".to_string()));
    assert_eq!(choose_interface(ip("8.8.8.8"), &list, Some("wlan0".to_string())), Some("wlan0".to_string()));
    let table = "Iface\tDestination\tGateway \tFlags\tRefCnt\tUse\tMetric\tMask\n\
                 eth0\t0001A8C0\t00000000\t0001\t0\t0\t100\t00FFFFFF\n\
                 wlan0\t00000000\t0101A8C0\t0003\t0\t0\t600\t00000000\n";
    assert_eq!(default_route_interface(table), Some("wlan0".to_string()));
    let mut p = PhysicalInterfaces::new();
    assert_eq!(p.bound_index(ip("8.8.8.8")), None);
    p.set_physical_if_index_v4(3);
    p.set_physical_if_index_v6(4);
    assert_eq!(p.bound_index(ip("8.8.8.8")), Some(3));
    assert_eq!(p.bound_index(ip("::1")), Some(4));
}

#[test]
fn inbound_addresses() {
    let a = resolve_addresses(&["198.18.0.1/16".to_string(), "fd00::1/126".to_string(), "junk".to_string()])
        .ok()
        .unwrap();
    assert_eq!(a.inet4_server, Some(Ipv4Addr::new(198, 18, 0, 1)));
    assert_eq!(a.inet4_client, Some(Ipv4Addr::new(198, 18, 0, 2)));
    assert_eq!(a.inet6_client, Some(Ipv6Addr { bits: 0xfd00 << 112 | 2 }));
    assert_eq!(first_broadcast(&a.inet4_prefixes), Some(Ipv4Addr::new(198, 18, 255, 255)));
    assert_eq!(
        device_address(&a.inet4_prefixes),
        Some((Ipv4Addr::new(198, 18, 0, 1), Ipv4Addr::new(255, 255, 0, 0)))
    );
    let e = resolve_addresses(&["10.0.0.1/32".to_string()]).err().unwrap();
    assert_eq!(e, AddressError::NoNextV4(Ipv4Addr::new(10, 0, 0, 1), 32));
    assert_eq!(
        e.message(),
        "tun: need one more IPv4 address in first prefix for system stack \
         (address 10.0.0.1 with prefix /32 has no valid next address in-prefix)"
    );
    let e = resolve_addresses(&["fd00::3/126".to_string()]).err().unwrap();
    assert_eq!(e, AddressError::NoNextV6(Ipv6Addr { bits: 0xfd00 << 112 | 3 }, 126));
    let e = resolve_addresses(&[]).err().unwrap();
    assert_eq!(e.message(), "tun: at least one address must be configured");
    let (v4, v6) = loopback_addresses(&["10.7.0.1".to_string(), "10.7.0.1".to_string()]);
    assert_eq!(v4, vec![Ipv4Addr::new(10, 7, 0, 1)]);
    assert_eq!(v6, vec![Ipv6Addr { bits: 1 }]);
}

#[test]
fn names_stacks_and_patience() {
    assert_eq!(interface_name(Some("utun3"), &Some("tun9".to_string())), "utun3");
    assert_eq!(interface_name(Some(""), &Some("tun9".to_string())), "tun9");
    assert_eq!(interface_name(None, &None), "tun0");
    assert_eq!(choose_stack("gvisor"), StackKind::Gvisor);
    assert_eq!(choose_stack("mixed"), StackKind::Mixed);
    assert_eq!(choose_stack("anything"), StackKind::System);
    assert!(bind_again(0) && bind_again(1) && !bind_again(2));
    assert_eq!(device_guid(b""), 0xdeadbeef_cafebabe_12345678_9abcdef0);
    assert_eq!(
        device_guid(b"a"),
        (0xdeadbeef_cafebabe_12345678_9abcdef0u128 ^ 0x61).wrapping_mul(0x6c62272e07bb0142)
    );
    assert_ne!(device_guid(b"tun0"), device_guid(b"tun1"));
}

#[test]
fn local_subnets() {
    let list = [
        Interface {
            name: "eth0".to_string(),
            addrs: vec![(ip("192.168.1.2"), 24), (ip("fe80::1"), 64), (ip("fd00::5"), 64)],
        },
        Interface { name: "tun0".to_string(), addrs: vec![(ip("198.18.0.1"), 16)] },
    ];
    assert_eq!(
        collect_local_subnets_v4(&list, Some("tun0")),
        vec![(Ipv4Addr::new(192, 168, 1, 0), 24)]
    );
    assert!(collect_local_subnets_v6(&list, Some("tun0"))
        .contains(&(Ipv6Addr { bits: 0xfd00 << 112 }, 64)));
}

#[test]
fn settings_and_defaults() {
    let cfg = TunInboundConfig::new("tun-in".to_string(), vec!["198.18.0.1/16".to_string()]);
    assert_eq!(cfg.tag, "tun-in");
    assert_eq!(cfg.mtu, 9000);
    assert_eq!(cfg.stack, "system");
    assert!(!cfg.auto_route);
    assert_eq!(cfg.iproute2_table_index, 2022);
    assert_eq!(cfg.iproute2_rule_index, 9000);
    assert_eq!(cfg.auto_redirect_input_mark, 0x2022);
    assert_eq!(cfg.auto_redirect_output_mark, 0x3022);
    let o = cfg.to_options();
    assert_eq!(o.inet4_address, vec![(ip("198.18.0.1"), 16)]);
    assert_eq!(o.stack, StackKind::System);
    let back = o.to_config("again".to_string());
    assert_eq!(back.tag, "again");
    assert_eq!(back.address, vec!["198.18.0.1/16"]);
    assert_eq!(back.mtu, 9000);
    let d = Options::default();
    assert_eq!(d.stack, StackKind::default());
    assert_eq!(StackKind::parse("gvisor"), Some(StackKind::Gvisor));
    assert_eq!(StackKind::parse("other"), None);
    assert_eq!(StackKind::Mixed.as_str(), "mixed");
    assert_eq!(prefix_to_string(&parse_prefix("10.0.0.0/8").unwrap()), "10.0.0.0/8");
    assert!(parse_prefix("10.0.0.0").is_none());
    assert_eq!(parse_uid_range("5:9"), Some((5, 9)));
    assert_eq!(parse_uid_range("7"), Some((7, 7)));
    assert_eq!(parse_uid_range("5-9"), None);
    assert_eq!(Duration::from_secs(7).as_secs(), 7);
}

#[test]
fn settings_that_cannot_be_read_are_left_out() {
    let mut cfg = TunInboundConfig::new(
        "t".to_string(),
        vec![
            "198.18.0.1/16".to_string(),
            "nonsense".to_string(),
            "fd00::1/126".to_string(),
            "198.18.0.1/33".to_string(),
        ],
    );
    cfg.udp_timeout = 0;
    cfg.stack = "gvisor".to_string();
    cfg.include_uid = vec![7];
    cfg.include_uid_range = vec!["1000:2000".to_string(), "x".to_string()];
    let o = cfg.to_options();
    assert_eq!(o.inet4_address, vec![(ip("198.18.0.1"), 16)]);
    assert_eq!(o.inet6_address, vec![(ip("fd00::1"), 126)]);
    assert_eq!(o.udp_timeout.as_secs(), 300);
    assert_eq!(o.stack, StackKind::Gvisor);
    assert_eq!(o.include_uid, vec![(7, 7), (1000, 2000)]);
    assert_eq!(o.mtu, 9000);
    assert!(parse_prefix("198.18.0.1/33").is_none());
    assert!(parse_prefix("fd00::1/129").is_none());
    assert_eq!(parse_prefix("fd00::1/128"), Some((ip("fd00::1"), 128)));
}

#[test]
fn queries_over_a_connection() {
    let (stage, action) = dns_start();
    assert!(matches!(action, DnsAction::Read(2)));
    let (stage, action) = dns_step(stage, DnsEvent::Bytes(vec![0, 3]), true);
    assert_eq!(stage, DnsStage::Message(3));
    assert!(matches!(action, DnsAction::Read(3)));
    let (stage, action) = dns_step(stage, DnsEvent::Bytes(vec![7, 8, 9]), true);
    match action {
        DnsAction::Query(q) => assert_eq!(q, vec![7, 8, 9]),
        _ => panic!("no query"),
    }
    let (stage, action) = dns_step(stage, DnsEvent::Reply(vec![1, 2]), true);
    assert_eq!(stage, DnsStage::Length);
    match action {
        DnsAction::Send(s) => assert_eq!(s, vec![0, 2, 1, 2]),
        _ => panic!("nothing sent"),
    }
    let (stage, _) = dns_step(stage, DnsEvent::Bytes(vec![0, 0]), true);
    assert_eq!(stage, DnsStage::Closed);
    let (stage, _) = dns_step(DnsStage::Message(1), DnsEvent::Bytes(vec![1]), false);
    assert_eq!(stage, DnsStage::Closed);
    let (stage, _) = dns_step(DnsStage::Answer, DnsEvent::Failed, true);
    assert_eq!(stage, DnsStage::Closed);
    assert_eq!(frame_message(b"ab"), vec![0, 2, b'a', b'b']);
}

#[test]
fn sniffed_bytes_are_read_first() {
    let mut p = SniffedPrefix::new();
    assert_eq!(p.poll_read(10), None);
    p.prepend(bytes::Bytes::from_static(b"hello"));
    assert_eq!(p.poll_read(2), Some(b"he".to_vec()));
    p.prepend(bytes::Bytes::from_static(b"XY"));
    assert_eq!(p.poll_read(4), Some(b"lloX".to_vec()));
    assert_eq!(p.poll_read(10), Some(b"Y".to_vec()));
    assert_eq!(p.poll_read(10), None);
}

#[test]
fn offloads_are_tried_in_turn() {
    assert!(tun_has_vnet_hdr(0x5001));
    assert!(!tun_has_vnet_hdr(0x1001));
    assert_eq!(setup_tun_offload(false, true, true), TunOffload::default());
    assert_eq!(
        setup_tun_offload(true, false, true),
        TunOffload { vnet_hdr: true, tcp_gso: false, udp_gso: false }
    );
    assert_eq!(
        setup_tun_offload(true, true, false),
        TunOffload { vnet_hdr: true, tcp_gso: true, udp_gso: false }
    );
    let flags = merge_flags(setup_tun_offload(true, true, false));
    assert!(flags.can_tcp() && !flags.can_udp());
    let mut s = StackState::new();
    assert!(s.start().is_ok());
    assert!(s.close());
    assert!(!s.close());
    assert!(s.start().is_err());
}

fn probe_v4() -> Vec<Vec<u8>> {
    build_gro_probe_segments(None)
}

#[test]
fn probe_segments() {
    let p = probe_v4();
    assert_eq!(p.len(), 2);
    for s in &p {
        assert_eq!(s.len(), 60);
        assert_eq!(&s[12..20], &[127, 0, 0, 1, 127, 0, 0, 1]);
        assert_eq!(checksum(&s[..20], 0), 0xffff);
        let mut pseudo = s[12..20].to_vec();
        pseudo.extend_from_slice(&[0, 6, 0, 40]);
        pseudo.extend_from_slice(&s[20..]);
        assert_eq!(checksum(&pseudo, 0), 0xffff);
        assert_eq!(&s[40..], b"reflex-probe-tun-gro");
    }
    let flags = flags_after_probe(GroDisablementFlags::default(), false);
    assert!(!flags.can_tcp() && !flags.can_udp());
    let flags = flags_after_probe(GroDisablementFlags::default(), true);
    assert!(flags.can_tcp() && flags.can_udp());
}

#[test]
fn batches_are_framed_and_merged() {
    let (r, batch) = do_batch_write(false, probe_v4(), GroDisablementFlags::default());
    assert!(r.is_ok());
    assert_eq!(batch.to_write, vec![0, 1]);
    assert_eq!(batch.bufs, probe_v4());
    let mut off = GroDisablementFlags::default();
    off.disable_tcp();
    let (r, batch) = do_batch_write(true, probe_v4(), off);
    assert!(r.is_ok());
    assert_eq!(batch.to_write, vec![0, 1]);
    assert_eq!(batch.bufs[1], frame_packet(&probe_v4()[1]));
    assert_eq!(front_headroom(true), 10);
    assert_eq!(front_headroom(false), 0);
}

#[test]
fn what_is_read_is_handed_out_in_order() {
    let mut q = PacketQueue::new(true);
    // One large packet of two segments.
    let mut pkt = probe_v4()[0].clone();
    pkt.extend_from_slice(&[5u8; 20]);
    pkt[3] = 80;
    let hdr = VirtioNetHdr {
        flags: 1,
        gso_type: VIRTIO_NET_HDR_GSO_TCPV4,
        hdr_len: 40,
        gso_size: 20,
        csum_start: 20,
        csum_offset: 16,
    };
    let mut data = vec![0u8; 10];
    hdr.encode(&mut data).unwrap();
    data.extend_from_slice(&pkt);
    assert!(q.can_receive(&data));
    q.receive(&data).unwrap();
    let mut bufs: Vec<Vec<u8>> = vec![Vec::new(); 1];
    let mut sizes = Vec::new();
    q.drain(&mut bufs, &mut sizes);
    assert_eq!(sizes, vec![60]);
    assert_eq!(&bufs[0][40..], b"reflex-probe-tun-gro");
    let mut bufs: Vec<Vec<u8>> = vec![Vec::new(); 3];
    let mut sizes = Vec::new();
    q.drain(&mut bufs, &mut sizes);
    assert_eq!(sizes, vec![60]);
    assert_eq!(&bufs[0][40..], &[5u8; 20]);
    // A header of an unknown kind is refused.
    let mut bad = vec![0u8; 10];
    bad[1] = 77;
    bad.extend_from_slice(&[0x45; 40]);
    assert_eq!(q.receive(&bad), Err(GsoError::UnsupportedType(77)));
    // Without headers what is read is the packet.
    let mut q = PacketQueue::new(false);
    q.receive(&[1, 2, 3]).unwrap();
    let mut sizes = Vec::new();
    q.drain(&mut bufs, &mut sizes);
    assert_eq!(sizes, vec![3]);
    assert_eq!(bufs[0], vec![1, 2, 3]);
}

#[test]
fn a_packet_may_take_several_writes() {
    let mut s = StagedPacket::new();
    assert_eq!(s.begin(&[1, 2, 3]), WriteStep::Flush);
    assert_eq!(s.rest().len(), 13);
    s.advance(5);
    assert_eq!(s.rest().len(), 8);
    s.advance(8);
    assert_eq!(s.complete(&[1, 2, 3], false), WriteStep::Done(3));
}
