//! What is set up and taken down on macOS and Windows.
use reflex_tun::addr::{IpAddr, Ipv4Addr, Ipv6Addr};
use reflex_tun::config::TunInboundConfig;
use reflex_tun::interface_finder::PhysicalInterfaces;
use reflex_tun::macos;
use reflex_tun::platform::SetupState;
use reflex_tun::text::parse_ip;
use reflex_tun::windows;
use reflex_tun::windows::{NameStep, RouteProperty};
use reflex_tun::windows_bypass::{
    add_reflex_bypass, bypass_command, bypass_step, remove_reflex_bypass, BypassStage,
};
use reflex_tun::windows_filter::{create_strict_session, Condition};

fn config() -> TunInboundConfig {
    TunInboundConfig::new(
        "tun-in".to_string(),
        vec!["198.18.0.1/16".to_string(), "fd00::1/126".to_string()],
    )
}

fn joined(lines: &[Vec<String>]) -> Vec<String> {
    lines.iter().map(|l| l.join(" ")).collect()
}

#[test]
fn macos_routes_everything_but_the_default() {
    let cfg = config();
    assert_eq!(
        macos::tun_routes_v4(&cfg),
        vec![
            "1.0.0.0/8",
            "2.0.0.0/7",
            "4.0.0.0/6",
            "8.0.0.0/5",
            "16.0.0.0/4",
            "32.0.0.0/3",
            "64.0.0.0/2",
            "128.0.0.0/1"
        ]
    );
    assert_eq!(
        macos::tun_routes_v6(&cfg),
        vec!["100::/8", "200::/7", "400::/6", "800::/5", "1000::/4", "2000::/3", "4000::/2", "8000::/1"]
    );
}

#[test]
fn macos_setup_and_teardown() {
    let mut cfg = config();
    cfg.route_address = vec!["10.0.0.0/8".to_string(), "fd00::/8".to_string(), "x".to_string()];
    cfg.route_exclude_address = vec!["10.1.0.0/16".to_string()];
    let (commands, state) = macos::setup(&cfg, "utun7", true);
    assert_eq!(
        joined(&commands),
        vec![
            "route -n add -net 10.0.0.0/8 -interface utun7",
            "route -n add -inet6 -net fd00::/8 -interface utun7",
        ]
    );
    let (commands, _) = macos::setup(&cfg, "utun7", false);
    assert_eq!(
        joined(&commands),
        vec![
            "route -n add -net 10.0.0.0/8 -interface utun7",
            "route -n add -inet6 fd00::/8 -interface utun7",
        ]
    );
    assert_eq!(
        joined(&macos::setup_excluded(&cfg, parse_ip("192.168.1.1"), None)),
        vec!["route -n add -net 10.1.0.0/16 192.168.1.1", "dscacheutil -flushcache"]
    );
    assert_eq!(
        joined(&macos::teardown(&cfg, &state)),
        vec![
            "route -n delete -net 10.0.0.0/8",
            "route -n delete -inet6 fd00::/8",
            "route -n delete -net 10.1.0.0/16",
            "dscacheutil -flushcache",
        ]
    );
    assert_eq!(
        macos::add_route("fd00::/8", parse_ip("fe80::1"), None).join(" "),
        "route -n add -inet6 -net fd00::/8 fe80::1"
    );
    assert_eq!(macos::delete_route("10.0.0.0/8").join(" "), "route -n delete -net 10.0.0.0/8");
}

#[test]
fn macos_default_route() {
    let out = "   route to: default\ndestination: default\n    gateway: 192.168.1.1\n  interface: en0\n";
    assert_eq!(macos::parse_gateway(out), parse_ip("192.168.1.1"));
    assert_eq!(macos::parse_interface(out), Some("en0".to_string()));
    assert_eq!(macos::parse_gateway("gateway: fe80::1%en0\n"), None);
    assert_eq!(macos::parse_gateway("nothing"), None);
    assert_eq!(macos::parse_interface(""), None);
    assert_eq!(macos::default_route_query(false).join(" "), "route -n get default");
    assert_eq!(macos::default_route_query(true).join(" "), "route -n get -inet6 default");
}

#[test]
fn windows_routes() {
    let mut cfg = config();
    cfg.route_exclude_address = vec!["10.0.0.0/8".to_string(), "fc00::/7".to_string()];
    let mut state = SetupState::default();
    let steps = windows::add_auto_routes(&cfg, "tun0", true, &mut state);
    assert_eq!(steps.len(), 2);
    assert_eq!(
        steps[0].native,
        Some((
            IpAddr::V4(Ipv4Addr { bits: 0 }),
            0,
            IpAddr::V4(Ipv4Addr::new(198, 18, 0, 2))
        ))
    );
    assert_eq!(
        steps[0].fallback.join(" "),
        "netsh interface ipv4 add route 0.0.0.0/0 tun0 metric=0"
    );
    assert_eq!(steps[1].fallback.join(" "), "netsh interface ipv6 add route ::/0 tun0 metric=0");
    assert_eq!((state.routes_v4.clone(), state.routes_v6.clone()), (vec!["0.0.0.0/0".to_string()], vec!["::/0".to_string()]));

    let gw = Ipv4Addr::new(192, 168, 1, 1);
    let steps = windows::add_exclude_routes(&cfg, "tun0", false, Some(gw), None, &mut state);
    assert_eq!(steps.len(), 1);
    assert_eq!(steps[0].native, None);
    assert_eq!(
        steps[0].fallback.join(" "),
        "netsh interface ipv4 add route 10.0.0.0/8 tun0 192.168.1.1 metric=0"
    );
    assert_eq!(state.exclude_routes_v4, vec!["10.0.0.0/8"]);
    assert!(state.exclude_routes_v6.is_empty());

    let down = windows::teardown(&cfg, "tun0", &state, true);
    assert_eq!(down.len(), 2);
    assert_eq!(down[1].native, Some((IpAddr::V6(Ipv6Addr { bits: 0 }), 0, parse_ip("fd00::2").unwrap())));
    assert_eq!(down[1].fallback.join(" "), "netsh interface ipv6 delete route ::/0 tun0");
    let down = windows::teardown_excluded("tun0", &state, true, Some(gw), None);
    assert_eq!(down[0].native, Some((parse_ip("10.0.0.0").unwrap(), 8, IpAddr::V4(gw))));
    let down = windows::teardown_excluded("tun0", &state, true, None, None);
    assert_eq!(down[0].native, None);
    assert_eq!(down[0].fallback.join(" "), "netsh interface ipv4 delete route 10.0.0.0/8 tun0");
}

#[test]
fn windows_addresses_and_name_servers() {
    let cfg = config();
    let steps = windows::address_steps(&cfg, "tun0");
    assert_eq!(steps.len(), 2);
    assert_eq!((steps[0].ip, steps[0].prefix_len), (parse_ip("198.18.0.1").unwrap(), 16));
    assert_eq!(
        steps[0].fallback.join(" "),
        "netsh interface ipv4 set address name tun0 static 198.18.0.1 255.255.0.0"
    );
    assert_eq!(
        steps[1].fallback.join(" "),
        "netsh interface ipv6 add address tun0 fd00::1/126"
    );
    let servers = windows::dns_servers(&cfg);
    assert_eq!(windows::server_list(&servers), "198.18.0.2,fd00::2");
    let s = windows::configure_interface(9000, true, false);
    assert_eq!((s.forwarding, s.dad_transmits, s.mtu, s.metric), (false, 0, 9000, Some(0)));
    assert_eq!(windows::configure_interface(1500, false, true).metric, None);
    assert_eq!(servers, vec![parse_ip("198.18.0.2").unwrap(), parse_ip("fd00::2").unwrap()]);
    assert_eq!(
        windows::dns_command(7, &servers)[4],
        "Set-DnsClientServerAddress -InterfaceIndex 7 -ServerAddresses \
         ('198.18.0.2,fd00::2' -split ',') -ErrorAction Stop"
    );
    let mut last = config();
    last.address = vec!["255.255.255.255/32".to_string(), "10.0.0.1/8".to_string()];
    assert_eq!(windows::server_addr_v4(&last), Some(Ipv4Addr::new(10, 0, 0, 2)));
    assert_eq!(windows::server_addr_v6(&last), None);
    assert_eq!(windows::next_v4(Ipv4Addr { bits: u32::MAX }), None);
    assert_eq!(windows::parse_cidr_v4("10.0.0.0/8"), Some((Ipv4Addr::new(10, 0, 0, 0), 8)));
    assert_eq!(windows::parse_cidr_v6("10.0.0.0/8"), None);
}

#[test]
fn windows_questions_and_answers() {
    assert_eq!(
        windows::default_route_query(true, RouteProperty::NextHop)[4],
        "(Get-NetRoute -DestinationPrefix '0.0.0.0/0' -ErrorAction SilentlyContinue \
         | Sort-Object RouteMetric | Select-Object -First 1).NextHop"
    );
    assert_eq!(
        windows::adapter_query("tun0", false)[4],
        "(Get-NetAdapter -Name 'tun0' -ErrorAction SilentlyContinue).Name"
    );
    assert_eq!(windows::parse_index(" 12\r\n"), Some(12));
    assert_eq!(windows::parse_index("x"), None);
    assert_eq!(
        windows::get_default_gateway_v4("192.168.1.1\r\n"),
        Some(Ipv4Addr::new(192, 168, 1, 1))
    );
    assert_eq!(windows::get_default_gateway_v6("fe80::1\n"), Some(Ipv6Addr { bits: 0xfe80 << 112 | 1 }));
    assert!(matches!(
        windows::resolve_actual_interface_name("tun0", 0, None),
        NameStep::Again
    ));
    match windows::resolve_actual_interface_name("tun0", 9, Some("\r\n")) {
        NameStep::Found(s) => assert_eq!(s, "tun0"),
        NameStep::Again => panic!("asked too often"),
    }
    match windows::resolve_actual_interface_name("tun0", 3, Some("tun0 2\r\n")) {
        NameStep::Found(s) => assert_eq!(s, "tun0 2"),
        NameStep::Again => panic!("an answer was there"),
    }
    assert!(windows::wait_for_interface(28, None));
    assert!(!windows::wait_for_interface(29, None));
    assert!(!windows::wait_for_interface(0, Some("5")));
    assert!(windows::wait_for_tun_address(0, false));
    assert!(!windows::wait_for_tun_address(0, true));
    assert!(!windows::wait_for_tun_address(29, false));
    let legacy = windows::legacy_rule_commands();
    assert_eq!(legacy.len(), 12);
    assert_eq!(
        legacy[0].join(" "),
        "netsh advfirewall firewall delete rule name=reflex-tun-strict-allow-v4"
    );
    assert_eq!(windows::flush_dns_command().join(" "), "ipconfig /flushdns");
    assert!(windows::must_write_driver(None, 10));
    assert!(windows::must_write_driver(Some(9), 10));
    assert!(!windows::must_write_driver(Some(10), 10));
}

#[test]
fn windows_bypass_runs_to_its_end() {
    let mut physical = PhysicalInterfaces::new();
    let mut stage = add_reflex_bypass();
    let answers = [" 9\n", "7\r\n", "192.168.1.1", "192.168.1.20\r\n", "", ""];
    let mut lines = Vec::new();
    for answer in answers {
        lines.push(bypass_command(&stage).unwrap().join(" "));
        stage = bypass_step(stage, Some(answer), true, &mut physical);
    }
    assert_eq!(lines[4], "netsh interface ipv4 delete route 192.168.1.20/32 7");
    assert_eq!(lines[5], "netsh interface ipv4 add route 192.168.1.20/32 7 192.168.1.1 metric=0");
    assert_eq!(physical.physical_if_index_v4(), Some(7));
    assert_eq!(physical.physical_if_index_v6(), Some(9));
    assert!(bypass_command(&stage).is_none());
    match stage {
        BypassStage::Done { route } => assert_eq!(route, Some("7/192.168.1.1/192.168.1.20".to_string())),
        _ => panic!("not done"),
    }
    // Without an answer nothing is done.
    let stage = bypass_step(remove_reflex_bypass(), None, false, &mut physical);
    assert!(matches!(stage, BypassStage::Done { route: None }));
}

#[test]
fn windows_filters() {
    let groups = create_strict_session(true, Some(5), true, false).groups;
    let flat: Vec<(bool, u8, bool, Condition, &str)> = groups
        .iter()
        .flatten()
        .map(|f| (f.v6, f.weight, f.permit, f.condition, f.name.as_str()))
        .collect();
    assert_eq!(
        flat,
        vec![
            (false, 13, true, Condition::ThisProcess, "reflex protect ipv4"),
            (true, 13, true, Condition::ThisProcess, "reflex protect ipv6"),
            (true, 12, false, Condition::Anything, "reflex block ipv6"),
            (false, 11, true, Condition::Interface(5), "reflex allow ipv4"),
            (false, 10, false, Condition::RemotePort(53), "reflex block ipv4 dns"),
            (true, 10, false, Condition::RemotePort(53), "reflex block ipv6 dns"),
        ]
    );
    assert!(groups[0][0].clear_action_right);
    assert!(!groups[1][0].clear_action_right);
    assert_eq!(create_strict_session(false, None, true, true).groups.len(), 1);
}
