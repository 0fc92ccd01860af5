//! A running inbound: what it does for packets, connections, datagrams, idle
//! time and changes of the network.
use vstd::prelude::*;

use crate::addr::{Ipv4Addr, Ipv6Addr, SocketAddr};
use crate::echo::FlowKey;
use crate::octets;
use crate::process;
use crate::process::{process_gvisor, process_mixed, process_packet, PacketAction, StackAction};
use crate::sessions;
use crate::sessions::{udp_route, SessionEntry, SessionKey, SessionTable, UdpRoute};
use crate::tcp::{TcpContextV4, TcpContextV6};
use crate::tcp_nat;
use crate::tcp_nat::{TcpNat, TcpNatEntry};
use crate::udp;
use crate::udp::reply_packets;
use crate::wire;

verus! {

/// Where datagrams go: queries to a resolver, the rest to sessions.
pub struct UdpDispatcher {
    pub sessions: SessionTable,
    /// Queries are answered by the resolver.
    pub dns_hijack: bool,
    /// There is a resolver.
    pub resolver: bool,
}

/// What becomes of a datagram.
#[derive(Clone, Copy, Debug, PartialEq, Eq, Structural)]
pub enum UdpDispatch {
    /// Ask the resolver; if it is gone, use the session after all.
    Resolve,
    /// Hand it to its session, which is new if `fresh`.
    Session { fresh: bool },
}

/// The session was opened or kept open: it was used now, and no other session
/// is touched.
pub open spec fn opened(
    before: SessionTable,
    after: SessionTable,
    key: SessionKey,
    now: u64,
    fresh: bool,
) -> bool {
    &&& fresh == !before.is_open(key)
    &&& after.seen(key, now)
    &&& forall|k: SessionKey, t: u64| k != key ==> #[trigger] after.seen(k, t) == before.seen(k, t)
    &&& fresh ==> after.list() == before.list().push(SessionEntry { key, last_seen: now })
}

/// A datagram to `dst` is a query for the resolver.
pub open spec fn is_query(d: UdpDispatcher, dst: SocketAddr) -> bool {
    d.dns_hijack && d.resolver && dst.port_of() == 53
}

impl UdpDispatcher {
    pub open spec fn wf(self) -> bool {
        self.sessions.wf()
    }

    pub open spec fn same_settings(self, other: Self) -> bool {
        self.dns_hijack == other.dns_hijack && self.resolver == other.resolver
    }

    pub fn new(dns_hijack: bool, resolver: bool) -> (d: Self)
        ensures
            d.wf(),
            d.sessions.list().len() == 0,
            d.dns_hijack == dns_hijack,
            d.resolver == resolver,
    {
        UdpDispatcher { sessions: SessionTable::new(), dns_hijack, resolver }
    }

    /// Decides what becomes of a datagram.
    pub fn dispatch_udp(&mut self, src: SocketAddr, dst: SocketAddr, now: u64) -> (r: UdpDispatch)
        requires
            old(self).wf(),
        ensures
            final(self).wf(),
            final(self).same_settings(*old(self)),
            match r {
                UdpDispatch::Resolve => is_query(*old(self), dst) && *final(self) == *old(self),
                UdpDispatch::Session { fresh } => !is_query(*old(self), dst) && opened(
                    old(self).sessions,
                    final(self).sessions,
                    SessionKey::Udp { src, dst },
                    now,
                    fresh,
                ),
            },
    {
        match udp_route(dst, self.dns_hijack, self.resolver) {
            UdpRoute::Resolver => UdpDispatch::Resolve,
            UdpRoute::Session => {
                let fresh: bool = self.open_session(src, dst, now);
                UdpDispatch::Session { fresh }
            },
        }
    }

    /// Uses the session of a datagram, as it is done where the resolver is
    /// gone; tells whether it is new.
    pub fn open_session(&mut self, src: SocketAddr, dst: SocketAddr, now: u64) -> (fresh: bool)
        requires
            old(self).wf(),
        ensures
            final(self).wf(),
            final(self).same_settings(*old(self)),
            opened(
                old(self).sessions,
                final(self).sessions,
                SessionKey::Udp { src, dst },
                now,
                fresh,
            ),
    {
        self.sessions.touch(SessionKey::Udp { src, dst }, now)
    }
}

/// What to do in the system stack.
pub enum EngineAction {
    /// Nothing.
    Drop,
    /// Write this packet to the tunnel.
    Write(Vec<u8>),
    /// Send this echo message on, for this flow.
    SendEcho(FlowKey, bytes::Bytes),
    /// Ask the resolver. The headers serve if the session is used after all.
    Resolve { src: SocketAddr, dst: SocketAddr, data: bytes::Bytes, header: Vec<u8> },
    /// Hand a datagram to its session. The headers serve to make the replies
    /// of a new one.
    Datagram { src: SocketAddr, dst: SocketAddr, data: bytes::Bytes, header: Vec<u8>, fresh: bool },
}

/// The same with the contents of the buffers.
pub enum EngineView {
    Drop,
    Write(Seq<u8>),
    SendEcho(FlowKey, Seq<u8>),
    Resolve { src: SocketAddr, dst: SocketAddr, data: Seq<u8>, header: Seq<u8> },
    Datagram { src: SocketAddr, dst: SocketAddr, data: Seq<u8>, header: Seq<u8>, fresh: bool },
}

impl View for EngineAction {
    type V = EngineView;

    open spec fn view(&self) -> EngineView {
        match *self {
            EngineAction::Drop => EngineView::Drop,
            EngineAction::Write(p) => EngineView::Write(p@),
            EngineAction::SendEcho(key, data) => EngineView::SendEcho(key, octets::content(data)),
            EngineAction::Resolve { src, dst, data, header } => EngineView::Resolve {
                src,
                dst,
                data: octets::content(data),
                header: header@,
            },
            EngineAction::Datagram { src, dst, data, header, fresh } => EngineView::Datagram {
                src,
                dst,
                data: octets::content(data),
                header: header@,
                fresh,
            },
        }
    }
}

/// What the dispatcher makes of what became of a packet.
pub open spec fn dispatched(
    p: process::ActionView,
    before: UdpDispatcher,
    after: UdpDispatcher,
    now: u64,
    a: EngineView,
) -> bool {
    match p {
        process::ActionView::Drop => a == EngineView::Drop && after == before,
        process::ActionView::Write(pkt) => a == EngineView::Write(pkt) && after == before,
        process::ActionView::SendEcho(key, data) => a == EngineView::SendEcho(key, data) && after
            == before,
        process::ActionView::Datagram(src, dst, data, header) => if is_query(before, dst) {
            a == (EngineView::Resolve { src, dst, data, header }) && after == before
        } else {
            let key = SessionKey::Udp { src, dst };
            let fresh = !before.sessions.is_open(key);
            &&& a == (EngineView::Datagram { src, dst, data, header, fresh })
            &&& after.same_settings(before)
            &&& opened(before.sessions, after.sessions, key, now, fresh)
        },
    }
}

/// The system stack: connections are translated to listeners, datagrams go to
/// sessions. Times are in nanoseconds.
pub struct SystemEngine {
    /// Echo requests are sent on; else they are answered in place.
    pub forward_echo: bool,
    pub v4: TcpContextV4,
    pub v6: TcpContextV6,
    pub broadcast: Option<Ipv4Addr>,
    pub nat: TcpNat,
    pub udp: UdpDispatcher,
    pub mtu: usize,
    /// How long a connection or session may be idle.
    pub timeout: u64,
}

impl SystemEngine {
    pub open spec fn wf(self) -> bool {
        self.nat.wf() && self.udp.wf()
    }

    pub open spec fn same_settings(self, other: Self) -> bool {
        &&& self.forward_echo == other.forward_echo
        &&& self.v4 == other.v4
        &&& self.v6 == other.v6
        &&& self.broadcast == other.broadcast
        &&& self.mtu == other.mtu
        &&& self.timeout == other.timeout
        &&& self.udp.same_settings(other.udp)
    }

    pub fn new(
        forward_echo: bool,
        v4: TcpContextV4,
        v6: TcpContextV6,
        broadcast: Option<Ipv4Addr>,
        udp: UdpDispatcher,
        mtu: usize,
        timeout: u64,
    ) -> (e: Self)
        requires
            udp.wf(),
        ensures
            e.wf(),
            e.forward_echo == forward_echo,
            e.v4 == v4,
            e.v6 == v6,
            e.broadcast == broadcast,
            e.udp == udp,
            e.mtu == mtu,
            e.timeout == timeout,
            e.nat.sessions() == Map::<u16, TcpNatEntry>::empty(),
            e.nat.cursor() == tcp_nat::NAT_PORT_START,
    {
        SystemEngine { forward_echo, v4, v6, broadcast, nat: TcpNat::new(), udp, mtu, timeout }
    }

    /// What happens for a packet from the tunnel.
    pub open spec fn took(self, raw: Seq<u8>, after: Self, now: u64, a: EngineView) -> bool {
        &&& after.same_settings(self)
        &&& exists|p: process::ActionView| #[trigger]
            process::outcome_system(
                raw,
                self.forward_echo,
                self.broadcast,
                self.v4,
                self.v6,
                self.nat,
                after.nat,
                now,
                p,
            ) && dispatched(p, self.udp, after.udp, now, a)
    }

    /// Handles a packet from the tunnel.
    pub fn on_packet(&mut self, raw: &[u8], now: u64) -> (a: EngineAction)
        requires
            old(self).wf(),
        ensures
            final(self).wf(),
            old(self).took(raw@, *final(self), now, a@),
    {
        let ghost before = *self;
        let p: PacketAction = process_packet(
            raw,
            self.forward_echo,
            self.broadcast,
            &self.v4,
            &self.v6,
            &mut self.nat,
            now,
        );
        let ghost pv = process::action_view(p);
        let a: EngineAction = match p {
            PacketAction::Drop => EngineAction::Drop,
            PacketAction::Write(pkt) => EngineAction::Write(pkt),
            PacketAction::SendEcho(key, data) => EngineAction::SendEcho(key, data),
            PacketAction::Datagram(src, dst, data, header) => {
                match self.udp.dispatch_udp(src, dst, now) {
                    UdpDispatch::Resolve => EngineAction::Resolve { src, dst, data, header },
                    UdpDispatch::Session { fresh } => EngineAction::Datagram {
                        src,
                        dst,
                        data,
                        header,
                        fresh,
                    },
                }
            },
        };
        assert(process::outcome_system(
            raw@,
            before.forward_echo,
            before.broadcast,
            before.v4,
            before.v6,
            before.nat,
            self.nat,
            now,
            pv,
        ) && dispatched(pv, before.udp, self.udp, now, a@));
        a
    }

    /// Finds the client and the destination of a connection that a listener
    /// accepted from this port.
    pub fn on_accept(&mut self, port: u16, now: u64) -> (r: Option<(SocketAddr, SocketAddr)>)
        requires
            old(self).wf(),
        ensures
            final(self).wf(),
            final(self).same_settings(*old(self)),
            final(self).udp == old(self).udp,
            tcp_nat::looked_back(old(self).nat, final(self).nat, port, now, r),
    {
        self.nat.lookup_back(port, now)
    }

    /// Closes what was idle for too long, and tells which sessions.
    pub fn on_tick(&mut self, now: u64) -> (closed: Vec<SessionKey>)
        requires
            old(self).wf(),
        ensures
            final(self).wf(),
            final(self).same_settings(*old(self)),
            final(self).nat.cursor() == old(self).nat.cursor(),
            final(self).nat.sessions() == old(self).nat.sessions().restrict(
                Set::new(
                    |p: u16|
                        !tcp_nat::expired(
                            old(self).nat.sessions()[p].last_active,
                            now,
                            old(self).timeout,
                        ),
                ),
            ),
            final(self).udp.sessions.list() == old(self).udp.sessions.list().filter(
                |e: SessionEntry| sessions::alive(e, now, old(self).timeout),
            ),
            closed@ == old(self).udp.sessions.list().filter(
                |e: SessionEntry| !sessions::alive(e, now, old(self).timeout),
            ).map_values(|e: SessionEntry| e.key),
    {
        self.nat.gc(now, self.timeout);
        self.udp.sessions.gc(now, self.timeout)
    }

    /// No connection and no session is known any more.
    pub open spec fn forgot(self, after: Self) -> bool {
        &&& after.same_settings(self)
        &&& after.nat.cursor() == self.nat.cursor()
        &&& after.nat.sessions() == Map::<u16, TcpNatEntry>::empty()
        &&& after.udp.sessions.list().len() == 0
    }

    /// Forgets every connection and session: the network is another.
    pub fn on_network_change(&mut self)
        requires
            old(self).wf(),
        ensures
            final(self).wf(),
            old(self).forgot(*final(self)),
    {
        self.nat.clear();
        self.udp.sessions.clear();
    }

    /// The packets that carry a reply to a client; an empty template stands for
    /// none.
    pub fn on_reply(
        &self,
        template: &[u8],
        server: SocketAddr,
        client: SocketAddr,
        payload: &[u8],
    ) -> (list: Vec<Vec<u8>>)
        requires
            udp::reply_fits(template@, server, client, payload@),
        ensures
            wire::views(list@) == udp::replies(
                template@,
                server,
                client,
                payload@,
                self.mtu as int,
            ),
    {
        reply_packets(template, server, client, payload, self.mtu)
    }
}

/// The userspace stacks: what a packet from the tunnel becomes, and where the
/// datagrams go that come out of the stack.
pub struct StackEngine {
    /// Echo requests are sent on where connections are not translated.
    pub forward_echo: bool,
    pub local_v4: Vec<(Ipv4Addr, u8)>,
    pub local_v6: Vec<(Ipv6Addr, u8)>,
    /// Where connections are translated to listeners all the same, how.
    pub translate: Option<(TcpContextV4, TcpContextV6)>,
    pub nat: TcpNat,
    pub udp: UdpDispatcher,
    pub mtu: usize,
}

impl StackEngine {
    pub open spec fn wf(self) -> bool {
        self.nat.wf() && self.udp.wf()
    }

    pub fn new(
        forward_echo: bool,
        local_v4: Vec<(Ipv4Addr, u8)>,
        local_v6: Vec<(Ipv6Addr, u8)>,
        translate: Option<(TcpContextV4, TcpContextV6)>,
        udp: UdpDispatcher,
        mtu: usize,
    ) -> (e: Self)
        requires
            udp.wf(),
        ensures
            e.wf(),
            e.forward_echo == forward_echo,
            e.local_v4 == local_v4,
            e.local_v6 == local_v6,
            e.translate == translate,
            e.udp == udp,
            e.mtu == mtu,
            e.nat.sessions() == Map::<u16, TcpNatEntry>::empty(),
            e.nat.cursor() == tcp_nat::NAT_PORT_START,
    {
        StackEngine { forward_echo, local_v4, local_v6, translate, nat: TcpNat::new(), udp, mtu }
    }

    /// Handles a packet from the tunnel.
    pub fn on_packet(&mut self, raw: &[u8], now: u64) -> (a: StackAction)
        requires
            old(self).wf(),
        ensures
            final(self).wf(),
            final(self).forward_echo == old(self).forward_echo,
            final(self).local_v4 == old(self).local_v4,
            final(self).local_v6 == old(self).local_v6,
            final(self).translate == old(self).translate,
            final(self).udp == old(self).udp,
            final(self).mtu == old(self).mtu,
            match old(self).translate {
                Some((v4, v6)) => process::outcome_mixed(
                    raw@,
                    old(self).local_v4@,
                    old(self).local_v6@,
                    v4,
                    v6,
                    old(self).nat,
                    final(self).nat,
                    now,
                    process::stack_view(a),
                ),
                None => final(self).nat == old(self).nat && process::stack_view(a)
                    == process::outcome_userspace(
                    raw@,
                    old(self).forward_echo,
                    old(self).local_v4@,
                    old(self).local_v6@,
                ),
            },
    {
        match &self.translate {
            Some((v4, v6)) => process_mixed(
                raw,
                self.local_v4.as_slice(),
                self.local_v6.as_slice(),
                v4,
                v6,
                &mut self.nat,
                now,
            ),
            None => process_gvisor(
                raw,
                self.forward_echo,
                self.local_v4.as_slice(),
                self.local_v6.as_slice(),
            ),
        }
    }

    /// Finds the client and the destination of a connection that a listener
    /// accepted from this port.
    pub fn on_accept(&mut self, port: u16, now: u64) -> (r: Option<(SocketAddr, SocketAddr)>)
        requires
            old(self).wf(),
        ensures
            final(self).wf(),
            final(self).forward_echo == old(self).forward_echo,
            final(self).local_v4 == old(self).local_v4,
            final(self).local_v6 == old(self).local_v6,
            final(self).translate == old(self).translate,
            final(self).udp == old(self).udp,
            final(self).mtu == old(self).mtu,
            tcp_nat::looked_back(old(self).nat, final(self).nat, port, now, r),
    {
        self.nat.lookup_back(port, now)
    }
}

/// After a change of the network no port leads back to a connection and no
/// session is open.
pub proof fn law_network_change_forgets(
    before: SystemEngine,
    after: SystemEngine,
    next: TcpNat,
    port: u16,
    now: u64,
    r: Option<(SocketAddr, SocketAddr)>,
    key: SessionKey,
)
    requires
        before.forgot(after),
        tcp_nat::looked_back(after.nat, next, port, now, r),
    ensures
        r is None,
        !after.udp.sessions.is_open(key),
{
}

/// A packet opens a session only for its own source and destination, and never
/// closes one.
pub proof fn law_packets_close_no_session(
    before: SystemEngine,
    after: SystemEngine,
    raw: Seq<u8>,
    now: u64,
    a: EngineView,
    key: SessionKey,
)
    requires
        before.took(raw, after, now, a),
        before.udp.sessions.is_open(key),
    ensures
        after.udp.sessions.is_open(key),
{
    let p = choose|p: process::ActionView| #[trigger]
        process::outcome_system(
            raw,
            before.forward_echo,
            before.broadcast,
            before.v4,
            before.v6,
            before.nat,
            after.nat,
            now,
            p,
        ) && dispatched(p, before.udp, after.udp, now, a);
    let k = choose|k: int|
        0 <= k < before.udp.sessions.list().len() && (#[trigger] before.udp.sessions.list()[k]).key
            == key;
    let t = before.udp.sessions.list()[k].last_seen;
    assert(before.udp.sessions.list()[k] == (SessionEntry { key, last_seen: t }));
    assert(before.udp.sessions.seen(key, t));
    if let process::ActionView::Datagram(src, dst, data, header) = p {
        if !is_query(before.udp, dst) {
            let own = SessionKey::Udp { src, dst };
            let at = if key == own {
                now
            } else {
                t
            };
            assert(after.udp.sessions.seen(key, at));
            let j = choose|j: int|
                0 <= j < after.udp.sessions.list().len() && after.udp.sessions.list()[j] == (
                SessionEntry { key, last_seen: at });
            assert(after.udp.sessions.list()[j].key == key);
        }
    }
}

/// Where queries go to the resolver, none is handed to a session as long as the
/// resolver takes it, and asking the resolver opens no session.
pub proof fn law_queries_go_to_resolver(
    before: SystemEngine,
    after: SystemEngine,
    raw: Seq<u8>,
    now: u64,
    a: EngineView,
)
    requires
        before.took(raw, after, now, a),
    ensures
        a matches EngineView::Datagram { dst, .. } ==> !is_query(before.udp, dst),
        a matches EngineView::Resolve { dst, .. } ==> is_query(before.udp, dst) && after.udp
            == before.udp,
{
}

} // verus!
