//! The numbers that protocols, systems and promises fix.
use vstd::prelude::*;

use crate::echo;
use crate::gso;
use crate::inbound;
use crate::interface_monitor;
use crate::linux_teardown;
use crate::mtu;
use crate::native_tun;
use crate::offload;
use crate::plain;
use crate::sessions;
use crate::tcp_nat;
use crate::udp;
use crate::uid;
use crate::windows;
use crate::windows_filter;

verus! {

/// Types of ICMP messages, as the echo of IPv4 and IPv6 defines them: a reply
/// is told from a request by its type.
pub proof fn law_echo_types()
    ensures
        echo::ICMPV4_ECHO_REQUEST == 8,
        echo::ICMPV4_ECHO_REPLY == 0,
        echo::ICMPV6_ECHO_REQUEST == 128,
        echo::ICMPV6_ECHO_REPLY == echo::ICMPV6_ECHO_REQUEST + 1,
{
}

/// Next-header numbers of IPv6, and the protocols that headers are followed by.
pub proof fn law_header_numbers()
    ensures
        udp::IPPROTO_HOPOPTS == 0,
        udp::IPPROTO_ROUTING == 43,
        udp::IPPROTO_FRAGMENT == 44,
        udp::IPPROTO_DSTOPTS == 60,
        gso::IPPROTO_TCP == 6,
        gso::IPPROTO_UDP == 17,
{
}

/// The flags of a device: each is a bit of its own, TCP offload takes the first
/// three, and all offloads together the two of UDP besides.
pub proof fn law_device_flags()
    ensures
        offload::TUN_F_CSUM == 1,
        offload::TUN_F_TSO4 == 2 * offload::TUN_F_CSUM,
        offload::TUN_F_TSO6 == 2 * offload::TUN_F_TSO4,
        offload::TUN_F_USO4 == 4 * offload::TUN_F_TSO6,
        offload::TUN_F_USO6 == 2 * offload::TUN_F_USO4,
        offload::TCP_OFFLOADS == offload::TUN_F_CSUM + offload::TUN_F_TSO4 + offload::TUN_F_TSO6,
        offload::ALL_OFFLOADS == offload::TCP_OFFLOADS + offload::TUN_F_USO4 + offload::TUN_F_USO6,
        gso::TUN_F_CSUM == offload::TUN_F_CSUM,
        gso::TUN_F_TSO4 == offload::TUN_F_TSO4,
        gso::TUN_F_TSO6 == offload::TUN_F_TSO6,
        gso::TUN_F_USO4 == offload::TUN_F_USO4,
        gso::TUN_F_USO6 == offload::TUN_F_USO6,
        offload::IFF_VNET_HDR == 16384,
        gso::VIRTIO_NET_HDR_LEN == 10,
        gso::IDEAL_BATCH_SIZE == 128,
        gso::GSO_MAX_SIZE == 65536,
{
}

/// The smallest packets that every link takes, and the hop limit of packets
/// that are made here.
pub proof fn law_packet_numbers()
    ensures
        mtu::IPV4_MINIMUM_MTU == 68,
        mtu::IPV6_MINIMUM_MTU == 1280,
        mtu::SYNTHESIZED_TTL == 64,
        windows_filter::DNS_PORT == 53,
{
}

/// The ports of connections are the upper ones: from the first to the last
/// there are as many as the table has places.
pub proof fn law_port_numbers()
    ensures
        tcp_nat::NAT_PORT_START == 10000,
        tcp_nat::NAT_PORT_END == 65535,
        tcp_nat::NAT_PORT_COUNT == tcp_nat::NAT_PORT_END - tcp_nat::NAT_PORT_START + 1,
        tcp_nat::ONE_SECOND == 1_000_000_000,
        uid::UID_MAX == u32::MAX - 1,
{
}

/// How long is waited, and how often is tried.
pub proof fn law_waits()
    ensures
        sessions::DEFAULT_UDP_TIMEOUT_SECS == 5 * 60,
        sessions::ICMP_FLOW_TIMEOUT_SECS == 30,
        interface_monitor::DEBOUNCE_MS == 1000,
        interface_monitor::POLL_INTERVAL_MS == 5 * interface_monitor::DEBOUNCE_MS,
        inbound::TUN_VISIBILITY_MAX_ATTEMPTS * inbound::TUN_VISIBILITY_POLL_INTERVAL_MS == 2000,
        inbound::TUN_VISIBILITY_MAX_ATTEMPTS == 40,
        inbound::BIND_ATTEMPTS == 3,
        linux_teardown::DELETE_ATTEMPTS == 3,
        windows::NAME_ATTEMPTS == 10,
        windows::INTERFACE_ATTEMPTS * windows::INTERFACE_PAUSE_MS == 3000,
        windows::ADDRESS_ATTEMPTS * windows::ADDRESS_PAUSE_MS == 6000,
        windows::INTERFACE_ATTEMPTS == 30,
        windows::ADDRESS_ATTEMPTS == 30,
{
}

/// The kernel's messages of what came and what went: what went is one more.
pub proof fn law_message_kinds()
    ensures
        interface_monitor::RTM_NEWLINK == 16,
        interface_monitor::RTM_DELLINK == interface_monitor::RTM_NEWLINK + 1,
        interface_monitor::RTM_NEWADDR == 20,
        interface_monitor::RTM_DELADDR == interface_monitor::RTM_NEWADDR + 1,
        interface_monitor::RTM_NEWROUTE == 24,
        interface_monitor::RTM_DELROUTE == interface_monitor::RTM_NEWROUTE + 1,
{
}

/// The usual loopback addresses: 127.0.0.1, and all zeros but the last bit.
pub proof fn law_loopback_numbers()
    ensures
        inbound::DEFAULT_INET4_LOOPBACK == 127 * 0x100_0000 + 1,
        inbound::DEFAULT_INET6_LOOPBACK == 1,
        plain::total(native_tun::probe_mark()) > 0,
        native_tun::probe_mark().len() == 20,
{
    plain::lemma_total(native_tun::probe_mark());
    let m = native_tun::probe_mark();
    plain::lemma_total(m.subrange(2, m.len() as int));
}

} // verus!
