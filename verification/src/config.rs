//! The settings of a TUN inbound.
use vstd::prelude::*;

verus! {

/// The settings of a TUN inbound.
#[derive(Clone, Debug)]
pub struct TunInboundConfig {
    /// The name by which routing rules know the inbound.
    pub tag: String,
    /// The name of the device; the system picks one where there is none.
    pub interface_name: Option<String>,
    pub mtu: u32,
    /// The prefixes of the device, such as `198.18.0.1/16`.
    pub address: Vec<String>,
    pub auto_route: bool,
    pub iproute2_table_index: u32,
    pub iproute2_rule_index: u32,
    /// The mark on the inbound's own outgoing sockets.
    pub so_mark: Option<u32>,
    pub strict_route: bool,
    /// `system`, `gvisor` or `mixed`.
    pub stack: String,
    pub include_interface: Vec<String>,
    pub exclude_interface: Vec<String>,
    pub include_uid: Vec<u32>,
    pub exclude_uid: Vec<u32>,
    /// User ids as `start:end`.
    pub include_uid_range: Vec<String>,
    pub exclude_uid_range: Vec<String>,
    /// The prefixes that are led into the device; all where there are none.
    pub route_address: Vec<String>,
    /// The prefixes that are kept out of it.
    pub route_exclude_address: Vec<String>,
    pub loopback_address: Vec<String>,
    /// Seconds; zero stands for the default.
    pub udp_timeout: u64,
    pub tcp_mss: Option<u16>,
    pub include_android_user: Vec<i32>,
    pub include_package: Vec<String>,
    pub exclude_package: Vec<String>,
    pub override_android_vpn: bool,
    pub auto_redirect: bool,
    pub auto_redirect_input_mark: u32,
    pub auto_redirect_output_mark: u32,
}

pub fn default_auto_redirect_input_mark() -> (mark: u32)
    ensures
        mark == 0x2022,
{
    0x2022
}

pub fn default_auto_redirect_output_mark() -> (mark: u32)
    ensures
        mark == 0x3022,
{
    0x3022
}

pub fn default_tun_mtu() -> (mtu: u32)
    ensures
        mtu == 9000,
{
    9000
}

pub fn default_tun_stack() -> (stack: String)
    ensures
        stack@ == "system"@,
{
    "system".to_owned()
}

pub fn default_iproute2_table_index() -> (index: u32)
    ensures
        index == 2022,
{
    2022
}

pub fn default_iproute2_rule_index() -> (index: u32)
    ensures
        index == 9000,
{
    9000
}

impl TunInboundConfig {
    /// The settings with this tag and these prefixes, and the default for
    /// everything else.
    pub fn new(tag: String, address: Vec<String>) -> (cfg: Self)
        ensures
            cfg.tag == tag,
            cfg.address == address,
            cfg.interface_name is None,
            cfg.mtu == 9000,
            !cfg.auto_route,
            cfg.iproute2_table_index == 2022,
            cfg.iproute2_rule_index == 9000,
            cfg.so_mark is None,
            !cfg.strict_route,
            cfg.stack@ == "system"@,
            cfg.include_interface@.len() == 0,
            cfg.exclude_interface@.len() == 0,
            cfg.include_uid@.len() == 0,
            cfg.exclude_uid@.len() == 0,
            cfg.include_uid_range@.len() == 0,
            cfg.exclude_uid_range@.len() == 0,
            cfg.route_address@.len() == 0,
            cfg.route_exclude_address@.len() == 0,
            cfg.loopback_address@.len() == 0,
            cfg.udp_timeout == 0,
            cfg.tcp_mss is None,
            cfg.include_android_user@.len() == 0,
            cfg.include_package@.len() == 0,
            cfg.exclude_package@.len() == 0,
            !cfg.override_android_vpn,
            !cfg.auto_redirect,
            cfg.auto_redirect_input_mark == 0x2022,
            cfg.auto_redirect_output_mark == 0x3022,
    {
        TunInboundConfig {
            tag,
            interface_name: None,
            mtu: default_tun_mtu(),
            address,
            auto_route: false,
            iproute2_table_index: default_iproute2_table_index(),
            iproute2_rule_index: default_iproute2_rule_index(),
            so_mark: None,
            strict_route: false,
            stack: default_tun_stack(),
            include_interface: Vec::new(),
            exclude_interface: Vec::new(),
            include_uid: Vec::new(),
            exclude_uid: Vec::new(),
            include_uid_range: Vec::new(),
            exclude_uid_range: Vec::new(),
            route_address: Vec::new(),
            route_exclude_address: Vec::new(),
            loopback_address: Vec::new(),
            udp_timeout: 0,
            tcp_mss: None,
            include_android_user: Vec::new(),
            include_package: Vec::new(),
            exclude_package: Vec::new(),
            override_android_vpn: false,
            auto_redirect: false,
            auto_redirect_input_mark: default_auto_redirect_input_mark(),
            auto_redirect_output_mark: default_auto_redirect_output_mark(),
        }
    }
}

} // verus!
