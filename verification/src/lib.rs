//! A TUN inbound: packets that a host sends into a TUN device become TCP
//! connections and UDP datagrams, and what comes back becomes packets again.
pub mod addr;
pub mod checksum;
pub mod command;
pub mod config;
pub mod device_laws;
pub mod dns;
pub mod echo;
pub mod echo_flow;
pub mod echo_laws;
pub mod engine;
pub mod gro;
pub mod gro_laws;
pub mod gso;
pub mod gso_laws;
pub mod inbound;
pub mod interface_finder;
pub mod interface_laws;
pub mod interface_monitor;
pub mod linux;
pub mod linux_laws;
pub mod linux_rules;
pub mod linux_teardown;
pub mod macos;
pub mod macos_laws;
pub mod merge_laws;
pub mod mtu;
pub mod mtu_laws;
pub mod native_tun;
pub mod nftables;
pub mod number_laws;
pub mod octets;
pub mod offload;
pub mod options;
pub mod packages;
pub mod plain;
pub mod platform;
pub mod process;
pub mod process_laws;
pub mod render;
pub mod route_laws;
pub mod routes;
pub mod rule_laws;
pub mod run;
pub mod run_laws;
pub mod session_laws;
pub mod sessions;
pub mod stack;
pub mod start_laws;
pub mod tcp;
pub mod tcp_laws;
pub mod tcp_nat;
pub mod text;
pub mod text_laws;
pub mod types;
pub mod udp;
pub mod udp_laws;
pub mod uid;
pub mod uid_laws;
pub mod windows;
pub mod windows_bypass;
pub mod windows_filter;
pub mod windows_laws;
pub mod wire;
