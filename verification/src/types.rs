//! What an inbound hands to the program that it serves.
use vstd::prelude::*;
use vstd::string::*;

use crate::addr::{Ipv4Addr, SocketAddr, SocketAddrV4};
use crate::render;
use crate::render::{dec_string, ip_string};

verus! {

/// Where a connection goes: a domain or an address, with a port.
#[derive(Clone, Debug, PartialEq, Eq, Hash)]
pub enum Target {
    Domain(String, u16),
    Socket(SocketAddr),
}

/// An address with a port: IPv6 addresses stand in brackets.
pub open spec fn socket_text(a: SocketAddr) -> Seq<char> {
    match a {
        SocketAddr::V4(s) => render::v4_text(s.ip.bits as int) + ":"@ + render::dec_text(
            s.port as int,
        ),
        SocketAddr::V6(s) => "["@ + render::v6_text(s.ip.bits as int) + "]:"@ + render::dec_text(
            s.port as int,
        ),
    }
}

/// Writes an address with a port.
pub fn socket_string(a: &SocketAddr) -> (s: String)
    ensures
        s@ == socket_text(*a),
{
    match a {
        SocketAddr::V4(v4) => {
            let mut s: String = render::v4_string(v4.ip);
            s.append(":");
            s.append(dec_string(v4.port as u64).as_str());
            s
        },
        SocketAddr::V6(v6) => {
            let mut s: String = "[".to_owned();
            s.append(render::v6_string(v6.ip).as_str());
            s.append("]:");
            s.append(dec_string(v6.port as u64).as_str());
            s
        },
    }
}

impl Target {
    pub fn port(&self) -> (port: u16)
        ensures
            port == (match self {
                Target::Domain(_, p) => *p,
                Target::Socket(a) => a.port_of(),
            }),
    {
        match self {
            Target::Domain(_, p) => *p,
            Target::Socket(a) => a.port(),
        }
    }

    /// The domain, or the address without its port.
    pub fn host(&self) -> (host: String)
        ensures
            host@ == (match self {
                Target::Domain(d, _) => d@,
                Target::Socket(a) => render::ip_text(a.ip_of()),
            }),
    {
        match self {
            Target::Domain(d, _) => d.as_str().to_owned(),
            Target::Socket(a) => ip_string(a.ip()),
        }
    }

    /// The address; a domain counts as the unspecified IPv4 address.
    pub fn to_socket_addr_lossy(&self) -> (addr: SocketAddr)
        ensures
            addr == (match self {
                Target::Domain(_, p) => SocketAddr::V4(
                    SocketAddrV4 { ip: Ipv4Addr { bits: 0 }, port: *p },
                ),
                Target::Socket(a) => *a,
            }),
    {
        match self {
            Target::Domain(_, p) => SocketAddr::V4(
                SocketAddrV4 { ip: Ipv4Addr { bits: 0 }, port: *p },
            ),
            Target::Socket(a) => *a,
        }
    }

    /// The target as text, with its port.
    pub fn to_text(&self) -> (s: String)
        ensures
            s@ == (match self {
                Target::Domain(d, p) => d@ + ":"@ + render::dec_text(*p as int),
                Target::Socket(a) => socket_text(*a),
            }),
    {
        match self {
            Target::Domain(d, p) => {
                let mut s: String = d.as_str().to_owned();
                s.append(":");
                s.append(dec_string(*p as u64).as_str());
                s
            },
            Target::Socket(a) => socket_string(a),
        }
    }
}

/// Where a DNS query came from.
#[derive(Clone, Copy, Debug, PartialEq, Eq, Structural)]
pub enum DnsQuerySource {
    /// An inbound of its own for DNS.
    Inbound,
    /// Traffic to the DNS port that was taken over.
    Hijacked,
}

/// The transport of a connection.
#[derive(Clone, Copy, Debug, PartialEq, Eq, Structural)]
pub enum Network {
    Tcp,
    Udp,
}

} // verus!
