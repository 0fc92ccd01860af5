//! What is set up and taken down on Linux.
use reflex_tun::addr::{IpAddr, Ipv4Addr};
use reflex_tun::config::TunInboundConfig;
use reflex_tun::linux::{
    add_routes_to_table, cleanup_systemd_resolved, dns_server_addresses, effective_so_mark,
    setup_checksum_offload, setup_systemd_resolved, state_file, try_setup,
};
use reflex_tun::linux_teardown::{delete_rule, sort_unique, teardown, try_teardown, RuleSweep};
use reflex_tun::nftables::{cleanup_nftables_redirect, nft_table_name, setup_nftables_redirect};
use reflex_tun::platform::SetupState;
use reflex_tun::render::prefix_string;
use reflex_tun::routes::{build_route_targets_v4, final_route_v4, final_route_v6};
use reflex_tun::text::parse_ip;
use reflex_tun::uid::{
    build_excluded_uid_ranges, complement_ranges, merge_ranges, merge_uid_list_and_ranges,
    parse_uid_range, subtract_ranges, UID_MAX,
};

fn config() -> TunInboundConfig {
    let mut cfg = TunInboundConfig::new(
        "tun-in".to_string(),
        vec!["198.18.0.1/16".to_string(), "fd00::1/126".to_string()],
    );
    cfg.auto_route = true;
    cfg
}

fn joined(lines: &[Vec<String>]) -> Vec<String> {
    lines.iter().map(|l| l.join(" ")).collect()
}

#[test]
fn setup_of_both_versions() {
    let mut cfg = config();
    cfg.route_exclude_address = vec!["10.0.0.0/8".to_string()];
    cfg.exclude_uid = vec![1000];
    cfg.exclude_interface = vec!["docker0".to_string()];
    let plan = try_setup(&cfg, "tun0").unwrap();
    let lines = joined(&plan.commands);
    let rules: Vec<&str> = lines
        .iter()
        .map(|s| s.as_str())
        .filter(|s| s.contains(" rule add "))
        .collect();
    assert_eq!(
        rules,
        vec![
            "ip rule add priority 9000 uidrange 1000-1000 goto 9100",
            "ip -6 rule add priority 9000 uidrange 1000-1000 goto 9100",
            "ip rule add priority 9001 iif docker0 goto 9100",
            "ip -6 rule add priority 9001 iif docker0 goto 9100",
            "ip rule add priority 9002 to 198.18.0.0/16 lookup 2022",
            "ip -6 rule add priority 9002 to fd00::/126 lookup 2022",
            "ip rule add priority 9003 lookup 2022 suppress_prefixlength 0",
            "ip -6 rule add priority 9003 lookup 2022 suppress_prefixlength 0",
            "ip rule add priority 9004 not dport 53 lookup main suppress_prefixlength 0",
            "ip -6 rule add priority 9004 not dport 53 lookup main suppress_prefixlength 0",
            "ip rule add priority 9005 iif tun0 goto 9100",
            "ip rule add priority 9006 not iif lo lookup 2022",
            "ip rule add priority 9007 iif lo from 0.0.0.0/32 lookup 2022",
            "ip rule add priority 9008 iif lo from 198.18.0.0/16 lookup 2022",
            "ip -6 rule add priority 9005 iif tun0 goto 9100",
            "ip -6 rule add priority 9006 iif lo from ::/1 goto 9100",
            "ip -6 rule add priority 9006 iif lo from 8000::/1 goto 9100",
            "ip -6 rule add priority 9007 iif lo from fd00::/126 lookup 2022",
            "ip -6 rule add priority 9008 lookup 2022",
            "ip rule add priority 9100",
            "ip -6 rule add priority 9100",
        ]
    );
    assert_eq!(
        plan.state.routes_v4,
        vec![
            "0.0.0.0/5",
            "8.0.0.0/7",
            "11.0.0.0/8",
            "12.0.0.0/6",
            "16.0.0.0/4",
            "32.0.0.0/3",
            "64.0.0.0/2",
            "128.0.0.0/1"
        ]
    );
    assert_eq!(plan.state.routes_v6, vec!["::/0"]);
    assert_eq!(plan.state_file, "/tmp/reflex-tun-2022.state");
    assert_eq!(plan.state_file, state_file(&cfg));
    assert_eq!(plan.state_text, "9009 9009");
    assert_eq!(
        joined(&plan.finish),
        vec![
            "ethtool -K tun0 tx on",
            "ethtool -K tun0 rx on",
            "resolvectl domain tun0 ~.",
            "resolvectl default-route tun0 true",
            "resolvectl dns tun0 198.18.0.2 fd00::2",
        ]
    );
    assert_eq!(joined(&setup_checksum_offload("tun0")), joined(&plan.finish[..2]));
    assert_eq!(joined(&setup_systemd_resolved(&cfg, "tun0")), joined(&plan.finish[2..]));
    assert_eq!(cleanup_systemd_resolved("tun0").join(" "), "resolvectl revert tun0");

    // Every rule that was added is taken down again.
    let down = teardown(&cfg, "tun0", &plan.state, None);
    assert_eq!(
        joined(&down.commands),
        vec!["ip route flush table 2022", "ip -6 route flush table 2022"]
    );
    for p in [9000u32, 9001, 9002, 9003, 9004, 9005, 9006, 9007, 9008, 9100] {
        for v6 in [false, true] {
            assert!(down.sweeps.contains(&RuleSweep { v6, first: p, last: p }));
        }
    }
    assert_eq!(down.stale_file, None);
    assert_eq!(delete_rule(true, 9000).join(" "), "ip -6 rule del priority 9000");
}

#[test]
fn strict_setup_of_one_version() {
    let mut cfg = config();
    cfg.address = vec!["198.18.0.1/16".to_string()];
    cfg.strict_route = true;
    cfg.so_mark = Some(255);
    cfg.include_interface = vec!["eth0".to_string()];
    let plan = try_setup(&cfg, "tun0").unwrap();
    let lines = joined(&plan.commands);
    assert!(lines.contains(&"ip rule add priority 9000 not fwmark 255 lookup 2022".to_string()));
    assert!(lines.contains(&"ip rule add priority 9001 iif eth0 lookup 2022".to_string()));
    assert!(lines.contains(&"ip rule add priority 9002 goto 9100".to_string()));
    assert!(lines.contains(&"ip -6 rule add priority 9000 type unreachable".to_string()));
    assert_eq!(effective_so_mark(&cfg), Some(255));
    cfg.so_mark = None;
    assert_eq!(effective_so_mark(&cfg), None);
    cfg.auto_redirect = true;
    assert_eq!(effective_so_mark(&cfg), Some(0x3022));
}

#[test]
fn an_exclude_of_everything_leaves_no_routes() {
    let mut cfg = config();
    cfg.route_exclude_address = vec!["0.0.0.0/0".to_string()];
    assert!(final_route_v4(&cfg).is_empty());
    assert_eq!(final_route_v6(&cfg).len(), 1);
    let plan = try_setup(&cfg, "tun0").unwrap();
    assert!(plan.state.routes_v4.is_empty());
    cfg.route_exclude_address = vec!["::/0".to_string()];
    assert!(final_route_v6(&cfg).is_empty());
    assert_eq!(final_route_v4(&cfg), vec![(Ipv4Addr { bits: 0 }, 0)]);
    // A prefix of length zero cannot be the device's own.
    cfg.address = vec!["198.18.0.1/0".to_string()];
    assert!(try_setup(&cfg, "tun0").is_none());
}

#[test]
fn teardown_without_memory() {
    let cfg = config();
    let none = SetupState::default();
    let down = teardown(&cfg, "tun0", &none, Some("9003 9005"));
    assert!(try_teardown(&cfg, "tun0", &none, Some("9003 9005")).is_some());
    let mut high = TunInboundConfig::new("t".to_string(), Vec::new());
    high.iproute2_rule_index = u32::MAX - 110;
    assert!(try_teardown(&high, "tun0", &none, None).is_none());
    assert!(try_teardown(&high, "tun0", &none, Some("1 2")).is_some());
    high.iproute2_rule_index = u32::MAX - 99;
    assert!(try_teardown(&high, "tun0", &none, Some("1 2")).is_none());
    assert_eq!(
        down.sweeps,
        vec![
            RuleSweep { v6: false, first: 9000, last: 9100 },
            RuleSweep { v6: true, first: 9000, last: 9100 }
        ]
    );
    assert_eq!(down.stale_file, Some("/tmp/reflex-tun-2022.state".to_string()));
    assert_eq!(sort_unique(&[5, 3, 5, 1]), vec![1, 3, 5]);
}

#[test]
fn name_servers_are_the_next_addresses() {
    assert_eq!(
        dns_server_addresses(&["10.0.0.1/24".to_string(), "10.0.1.1/24".to_string()]),
        vec![IpAddr::V4(Ipv4Addr::new(10, 0, 0, 2))]
    );
    assert!(dns_server_addresses(&["nonsense".to_string()]).is_empty());
}

#[test]
fn redirect_tables() {
    let cfg = config();
    assert_eq!(nft_table_name("tun-x.1"), "reflex_tun_tun_x_1");
    let text = setup_nftables_redirect(&cfg, "tun-x");
    assert!(text.contains("flush table inet reflex_tun_tun_x"));
    assert!(text.contains("meta iifname \"tun-x\" return comment \"skip TUN ingress\""));
    assert!(text.contains("meta mark 12322 return comment \"skip reflex own reply\""));
    assert!(text.contains("meta l4proto 6 meta mark set 8226 accept comment \"mark TCP for TUN\""));
    assert_eq!(
        joined(&cleanup_nftables_redirect(&cfg, "tun-x")),
        vec![
            "nft delete table inet reflex_tun_tun_x",
            "ip rule del fwmark 0x2022 lookup 2022",
            "ip -6 rule del fwmark 0x2022 lookup 2022",
        ]
    );
}

#[test]
fn user_ranges() {
    assert_eq!(parse_uid_range("1000: 2000"), Some((1000, 2000)));
    assert_eq!(parse_uid_range("2000:1000"), None);
    assert_eq!(parse_uid_range("1000"), None);
    assert_eq!(merge_ranges(&[(5, 7), (1, 2), (3, 3), (20, 30), (25, 40)]), vec![(1, 3), (5, 7), (20, 40)]);
    assert_eq!(
        merge_uid_list_and_ranges(&[4, 1], &["2:3".to_string(), "bad".to_string()]),
        vec![(1, 4)]
    );
    assert_eq!(subtract_ranges(&[(1, 10)], &[(3, 4), (8, 20)]), vec![(1, 2), (5, 7)]);
    // The ranges need no order, and what is left of each stays in its place.
    assert_eq!(
        subtract_ranges(&[(20, 30), (1, 10), (5, 25)], &[(8, 22), (2, 2)]),
        vec![(23, 30), (1, 1), (3, 7), (5, 7), (23, 25)]
    );
    assert_eq!(subtract_ranges(&[(9, 9), (1, 2)], &[]), vec![(9, 9), (1, 2)]);
    assert_eq!(complement_ranges(&[(3, 4)], 0, 10), vec![(0, 2), (5, 10)]);
    assert_eq!(complement_ranges(&[(8, 20), (3, 4)], 1, 10), vec![(1, 2), (5, 7)]);
    assert_eq!(complement_ranges(&[(5, u32::MAX)], 0, u32::MAX), vec![(0, 4)]);
    assert_eq!(complement_ranges(&[], 0, u32::MAX), vec![(0, u32::MAX)]);
    assert!(complement_ranges(&[], 2, 1).is_empty());
    let mut cfg = config();
    cfg.include_uid = vec![1000];
    assert_eq!(build_excluded_uid_ranges(&cfg), vec![(0, 999), (1001, UID_MAX)]);
    cfg.exclude_uid = vec![0];
    cfg.include_uid = Vec::new();
    assert_eq!(build_excluded_uid_ranges(&cfg), vec![(0, 0)]);
}

#[test]
fn routes_leave_out_what_is_excluded() {
    let mut cfg = config();
    assert_eq!(build_route_targets_v4(&cfg), vec![(Ipv4Addr { bits: 0 }, 0)]);
    cfg.route_address = vec!["10.0.0.0/8".to_string(), "fd00::/8".to_string()];
    cfg.route_exclude_address = vec!["10.64.0.0/10".to_string(), "fd00::/9".to_string()];
    let texts: Vec<String> =
        final_route_v4(&cfg).iter().map(|(ip, len)| prefix_string(IpAddr::V4(*ip), *len)).collect();
    assert_eq!(texts, vec!["10.0.0.0/10", "10.128.0.0/9"]);
    let texts: Vec<String> =
        final_route_v6(&cfg).iter().map(|(ip, len)| prefix_string(IpAddr::V6(*ip), *len)).collect();
    assert_eq!(texts, vec!["fd80::/9"]);
    cfg.route_exclude_address = vec!["10.0.0.0/7".to_string()];
    assert!(final_route_v4(&cfg).is_empty());
    assert_eq!(parse_ip("10.0.0.1"), Some(IpAddr::V4(Ipv4Addr::new(10, 0, 0, 1))));
}

#[test]
fn strict_routes_shut_the_missing_version() {
    let mut cfg = TunInboundConfig::new("t".to_string(), vec!["10.0.0.1/24".to_string()]);
    cfg.strict_route = true;
    let plan = try_setup(&cfg, "tun0").unwrap();
    let shut = |line: &&Vec<String>| line.ends_with(&["type".to_string(), "unreachable".to_string()]);
    let lines: Vec<&Vec<String>> = plan.commands.iter().filter(shut).collect();
    assert_eq!(lines.len(), 1);
    assert_eq!(lines[0][..5], ["ip", "-6", "rule", "add", "priority"]);
    cfg.strict_route = false;
    let plan = try_setup(&cfg, "tun0").unwrap();
    assert!(!plan.commands.iter().any(|line| shut(&line)));
}

#[test]
fn routes_are_remembered_behind_earlier_ones() {
    let mut cfg = config();
    cfg.route_address = vec!["10.0.0.0/8".to_string(), "fd00::/8".to_string()];
    let mut state = SetupState::default();
    state.routes_v4 = vec!["192.0.2.0/24".to_string()];
    state.routes_v6 = vec!["2001:db8::/32".to_string()];
    let mut commands = vec![vec!["true".to_string()]];
    add_routes_to_table(&cfg, "tun0", &mut commands, &mut state);
    assert_eq!(state.routes_v4, vec!["192.0.2.0/24", "10.0.0.0/8"]);
    assert_eq!(state.routes_v6, vec!["2001:db8::/32", "fd00::/8"]);
    assert_eq!(
        joined(&commands),
        vec![
            "true",
            "ip route add 10.0.0.0/8 dev tun0 table 2022",
            "ip -6 route add fd00::/8 dev tun0 table 2022",
        ]
    );
}

#[test]
fn ranges_are_joined_in_order() {
    assert_eq!(merge_ranges(&[(7, 8), (1, 3), (4, 5), (2, 2)]), vec![(1, 5), (7, 8)]);
    assert_eq!(merge_ranges(&[(5, u32::MAX), (9, 9)]), vec![(5, u32::MAX)]);
    // A range that ends before it starts covers nothing.
    assert_eq!(merge_ranges(&[(5, 9), (5, 3), (1, 2)]), vec![(1, 2), (5, 3), (5, 9)]);
    assert_eq!(merge_ranges(&[(5, 3), (1, 9)]), vec![(1, 9)]);
}
