//! The TCP port translation table: every connection, known by its source and
//! destination, has a port of its own, by which replies find the way back.
use vstd::prelude::*;

use crate::addr::{IpAddr, SocketAddr};

verus! {

/// The ports that connections are given: 10000 to 65535.
pub const NAT_PORT_START: u16 = 10000;

pub const NAT_PORT_END: u16 = 65535;

/// How many ports there are.
pub const NAT_PORT_COUNT: usize = 55536;

const BUCKETS: usize = 4096;

/// One second, in the nanoseconds that times are given in.
pub const ONE_SECOND: u64 = 1_000_000_000;

/// A connection and when it was last used.
#[derive(Clone, Copy, Debug, PartialEq, Eq, Structural)]
pub struct TcpNatEntry {
    pub source: SocketAddr,
    pub destination: SocketAddr,
    pub last_active: u64,
}

/// The translation table. A slot for each port holds its connection; buckets
/// of ports, by a number made of the connection, find the port of one.
pub struct TcpNat {
    port_index: u16,
    slots: Vec<Option<TcpNatEntry>>,
    buckets: Vec<Vec<u16>>,
}

spec fn addr_weight(a: SocketAddr) -> int {
    (match a.ip_of() {
        IpAddr::V4(ip) => ip.bits as int % 65521,
        IpAddr::V6(ip) => ip.bits as int % 65521,
    }) * 7 + a.port_of() * 31
}

spec fn bucket_of(src: SocketAddr, dst: SocketAddr) -> int {
    (addr_weight(src) + addr_weight(dst) * 3) % (BUCKETS as int)
}

fn weigh(a: SocketAddr) -> (w: u64)
    ensures
        w == addr_weight(a),
        w <= 3_000_000,
{
    let ip: u64 = match a.ip() {
        IpAddr::V4(ip) => (ip.bits % 65521) as u64,
        IpAddr::V6(ip) => (ip.bits % 65521) as u64,
    };
    ip * 7 + a.port() as u64 * 31
}

fn bucket(src: SocketAddr, dst: SocketAddr) -> (b: usize)
    ensures
        b == bucket_of(src, dst),
        b < BUCKETS,
{
    ((weigh(src) + weigh(dst) * 3) % (BUCKETS as u64)) as usize
}

/// The port that a search starting at cursor `c` looks at after `k` others:
/// ports are tried in rising order, and from the last one on again from the
/// first.
pub open spec fn probe(c: u16, k: int) -> int {
    let first = if c < NAT_PORT_START {
        NAT_PORT_START as int
    } else {
        c as int
    };
    NAT_PORT_START + (first - NAT_PORT_START + k) % (NAT_PORT_COUNT as int)
}

/// When a connection that was last used at `last` counts as last used, once it
/// is used at `now`: the time is brought up to date at most once a second.
pub open spec fn refreshed(last: u64, now: u64) -> u64 {
    if now > last && now - last > ONE_SECOND {
        now
    } else {
        last
    }
}

impl TcpNat {
    /// The connections by their ports.
    pub closed spec fn sessions(self) -> Map<u16, TcpNatEntry> {
        Map::new(
            |p: u16| p >= NAT_PORT_START && self.slots@[p - NAT_PORT_START] is Some,
            |p: u16| self.slots@[p - NAT_PORT_START]->0,
        )
    }

    /// The port at which the next search starts.
    pub closed spec fn cursor(self) -> u16 {
        self.port_index
    }

    pub closed spec fn wf(self) -> bool {
        &&& self.slots@.len() == NAT_PORT_COUNT
        &&& self.buckets@.len() == BUCKETS
        &&& forall|b: int, j: int|
            0 <= b < BUCKETS && 0 <= j < self.buckets@[b]@.len() ==> self.listed(
                b,
                #[trigger] self.buckets@[b]@[j],
            )
        &&& forall|s: int|
            0 <= s < NAT_PORT_COUNT && (#[trigger] self.slots@[s]) is Some
                ==> self.buckets@[bucket_of(
                self.slots@[s]->0.source,
                self.slots@[s]->0.destination,
            )]@.contains((s + NAT_PORT_START) as u16)
        &&& forall|b: int, i: int, j: int|
            0 <= b < BUCKETS && 0 <= i < j < self.buckets@[b]@.len()
                ==> #[trigger] self.buckets@[b]@[i] != #[trigger] self.buckets@[b]@[j]
        &&& self.keys_differ()
    }

    /// The port `p` rightly stands in bucket `b`.
    spec fn listed(self, b: int, p: u16) -> bool {
        &&& p >= NAT_PORT_START
        &&& self.slots@[p - NAT_PORT_START] is Some
        &&& bucket_of(
            self.slots@[p - NAT_PORT_START]->0.source,
            self.slots@[p - NAT_PORT_START]->0.destination,
        ) == b
    }

    spec fn keys_differ(self) -> bool {
        forall|s: int, t: int|
            0 <= s < t < NAT_PORT_COUNT && (#[trigger] self.slots@[s]) is Some && (
            #[trigger] self.slots@[t]) is Some ==> !(self.slots@[s]->0.source
                == self.slots@[t]->0.source && self.slots@[s]->0.destination
                == self.slots@[t]->0.destination)
    }

    /// The connection `(src, dst)` has the port `p`.
    pub open spec fn maps(self, src: SocketAddr, dst: SocketAddr, p: u16) -> bool {
        &&& self.sessions().contains_key(p)
        &&& self.sessions()[p].source == src
        &&& self.sessions()[p].destination == dst
    }

    /// The connection has no port.
    pub open spec fn unknown(self, src: SocketAddr, dst: SocketAddr) -> bool {
        forall|p: u16| !#[trigger] self.maps(src, dst, p)
    }

    /// Every port is in use.
    pub open spec fn exhausted(self) -> bool {
        forall|p: u16| p >= NAT_PORT_START ==> #[trigger] self.sessions().contains_key(p)
    }

    /// An empty table.
    pub fn new() -> (table: Self)
        ensures
            table.wf(),
            table.sessions() == Map::<u16, TcpNatEntry>::empty(),
            table.cursor() == NAT_PORT_START,
    {
        let mut slots: Vec<Option<TcpNatEntry>> = Vec::with_capacity(NAT_PORT_COUNT);
        let mut k: usize = 0;
        while k < NAT_PORT_COUNT
            invariant
                k <= NAT_PORT_COUNT,
                slots@.len() == k,
                forall|j: int| 0 <= j < k ==> (#[trigger] slots@[j]) is None,
            decreases NAT_PORT_COUNT - k,
        {
            slots.push(None);
            k += 1;
        }
        let mut buckets: Vec<Vec<u16>> = Vec::with_capacity(BUCKETS);
        let mut b: usize = 0;
        while b < BUCKETS
            invariant
                b <= BUCKETS,
                buckets@.len() == b,
                forall|j: int| 0 <= j < b ==> (#[trigger] buckets@[j])@.len() == 0,
            decreases BUCKETS - b,
        {
            buckets.push(Vec::new());
            b += 1;
        }
        let table = TcpNat { port_index: NAT_PORT_START, slots, buckets };
        assert(table.sessions() =~= Map::<u16, TcpNatEntry>::empty());
        table
    }

    /// The port of a connection, if it has one.
    fn find(&self, src: SocketAddr, dst: SocketAddr) -> (r: Option<u16>)
        requires
            self.wf(),
        ensures
            match r {
                Some(p) => self.maps(src, dst, p),
                None => self.unknown(src, dst),
            },
    {
        let b: usize = bucket(src, dst);
        let mut j: usize = 0;
        while j < self.buckets[b].len()
            invariant
                self.wf(),
                b == bucket_of(src, dst),
                b < BUCKETS,
                j <= self.buckets@[b as int]@.len(),
                forall|i: int|
                    0 <= i < j ==> !self.maps(src, dst, #[trigger] self.buckets@[b as int]@[i]),
            decreases self.buckets@[b as int]@.len() - j,
        {
            let p: u16 = self.buckets[b][j];
            assert(self.listed(b as int, self.buckets@[b as int]@[j as int]));
            if let Some(e) = self.slots[(p - NAT_PORT_START) as usize] {
                if e.source == src && e.destination == dst {
                    return Some(p);
                }
            }
            j += 1;
        }
        proof {
            assert forall|p: u16| !#[trigger] self.maps(src, dst, p) by {
                if self.maps(src, dst, p) {
                    let s = p - NAT_PORT_START;
                    assert(self.slots@[s] is Some);
                    assert(self.buckets@[b as int]@.contains((s + NAT_PORT_START) as u16));
                    assert((s + NAT_PORT_START) as u16 == p);
                }
            }
        }
        None
    }

    /// Brings the time of the connection on port `p` up to date.
    fn touch(&mut self, p: u16, now: u64)
        requires
            old(self).wf(),
            old(self).sessions().contains_key(p),
        ensures
            final(self).wf(),
            final(self).cursor() == old(self).cursor(),
            final(self).sessions() == old(self).sessions().insert(
                p,
                (TcpNatEntry {
                    last_active: refreshed(old(self).sessions()[p].last_active, now),
                    ..old(self).sessions()[p]
                }),
            ),
    {
        let s: usize = (p - NAT_PORT_START) as usize;
        let ghost before = *self;
        if let Some(e) = self.slots[s] {
            if now > e.last_active && now - e.last_active > ONE_SECOND {
                self.slots.set(s, Some(TcpNatEntry { last_active: now, ..e }));
            }
        }
        proof {
            assert forall|b: int, j: int|
                0 <= b < BUCKETS && 0 <= j < self.buckets@[b]@.len() implies self.listed(
                b,
                #[trigger] self.buckets@[b]@[j],
            ) by {
                assert(before.listed(b, before.buckets@[b]@[j]));
            }
            assert forall|t: int|
                0 <= t < NAT_PORT_COUNT && (#[trigger] self.slots@[t]) is Some implies
                self.buckets@[bucket_of(
                self.slots@[t]->0.source,
                self.slots@[t]->0.destination,
            )]@.contains((t + NAT_PORT_START) as u16) by {
                assert(before.slots@[t] is Some);
            }
            assert(self.keys_differ()) by {
                assert forall|t: int, u: int|
                    0 <= t < u < NAT_PORT_COUNT && (#[trigger] self.slots@[t]) is Some && (
                    #[trigger] self.slots@[u]) is Some implies !(self.slots@[t]->0.source
                    == self.slots@[u]->0.source && self.slots@[t]->0.destination
                    == self.slots@[u]->0.destination) by {
                    assert(before.slots@[t] is Some && before.slots@[u] is Some);
                }
            }
            assert(self.sessions() =~= before.sessions().insert(
                p,
                (TcpNatEntry {
                    last_active: refreshed(before.sessions()[p].last_active, now),
                    ..before.sessions()[p]
                }),
            ));
        }
    }

    /// Takes the next free port, looking at each port once.
    fn allocate_port_locked(&mut self) -> (r: Option<u16>)
        requires
            old(self).wf(),
        ensures
            final(self).wf(),
            final(self).sessions() == old(self).sessions(),
            match r {
                Some(p) => {
                    &&& p >= NAT_PORT_START
                    &&& !old(self).sessions().contains_key(p)
                    &&& final(self).cursor() == (p + 1) % 65536
                    &&& exists|k: int| #[trigger]
                        probe(old(self).cursor(), k) == p && 0 <= k < NAT_PORT_COUNT && forall|j: int|
                            0 <= j < k ==> old(self).sessions().contains_key(
                                #[trigger] probe(old(self).cursor(), j) as u16,
                            )
                },
                None => {
                    &&& old(self).exhausted()
                    &&& final(self).cursor() == (probe(old(self).cursor(), NAT_PORT_COUNT - 1) + 1)
                        % 65536
                },
            },
    {
        let ghost before = *self;
        let ghost start = self.port_index;
        let mut t: usize = 0;
        while t < NAT_PORT_COUNT
            invariant
                t <= NAT_PORT_COUNT,
                before == *old(self),
                before.wf(),
                start == before.port_index,
                self.slots@ == before.slots@,
                self.buckets@ == before.buckets@,
                probe(self.port_index, 0) == probe(start, t as int),
                t > 0 ==> self.port_index == (probe(start, t - 1) + 1) % 65536,
                forall|j: int|
                    0 <= j < t ==> before.sessions().contains_key(#[trigger] probe(start, j) as u16),
            decreases NAT_PORT_COUNT - t,
        {
            let p: u16 = if self.port_index < NAT_PORT_START {
                NAT_PORT_START
            } else {
                self.port_index
            };
            assert(p == probe(start, t as int));
            self.port_index = if p == NAT_PORT_END {
                0
            } else {
                p + 1
            };
            assert(probe(self.port_index, 0) == probe(start, t + 1));
            if self.slots[(p - NAT_PORT_START) as usize].is_none() {
                assert(self.sessions() =~= before.sessions());
                assert(!before.sessions().contains_key(p));
                assert(probe(before.cursor(), t as int) == p);
                proof {
                    self.lemma_wf_same(before);
                }
                return Some(p);
            }
            assert(before.sessions().contains_key(probe(start, t as int) as u16));
            t += 1;
        }
        proof {
            assert forall|p: u16| p >= NAT_PORT_START implies
                #[trigger] before.sessions().contains_key(p) by {
                let first = probe(start, 0);
                let k = (p - first) % (NAT_PORT_COUNT as int);
                assert(probe(start, k) == p);
            }
            assert(self.sessions() =~= before.sessions());
            self.lemma_wf_same(before);
        }
        None
    }

    /// The cursor plays no part in well-formedness.
    proof fn lemma_wf_same(self, before: Self)
        requires
            before.wf(),
            self.slots@ == before.slots@,
            self.buckets@ == before.buckets@,
        ensures
            self.wf(),
    {
        assert forall|b: int, j: int|
            0 <= b < BUCKETS && 0 <= j < self.buckets@[b]@.len() implies self.listed(
            b,
            #[trigger] self.buckets@[b]@[j],
        ) by {
            assert(before.listed(b, before.buckets@[b]@[j]));
        }
        assert forall|s: int|
            0 <= s < NAT_PORT_COUNT && (#[trigger] self.slots@[s]) is Some implies
            self.buckets@[bucket_of(
            self.slots@[s]->0.source,
            self.slots@[s]->0.destination,
        )]@.contains((s + NAT_PORT_START) as u16) by {
            assert(before.slots@[s] is Some);
        }
        assert(self.keys_differ()) by {
            assert(before.keys_differ());
        }
    }

    /// The port of the connection `(src, dst)`, given a free one if it has
    /// none. A known connection keeps its port, and no connection loses its
    /// port to another: where all are in use, a new one gets none.
    pub fn lookup_or_insert(&mut self, src: SocketAddr, dst: SocketAddr, now: u64) -> (r: Option<
        u16,
    >)
        requires
            old(self).wf(),
        ensures
            final(self).wf(),
            looked_up(*old(self), *final(self), src, dst, now, r),
    {
        if let Some(p) = self.find(src, dst) {
            proof {
                self.lemma_one_port(src, dst, p);
            }
            self.touch(p, now);
            return Some(p);
        }
        let ghost first = *self;
        match self.allocate_port_locked() {
            None => None,
            Some(p) => {
                let ghost before = *self;
                assert(!before.sessions().contains_key(p));
                assert(forall|q: u16| #[trigger]
                    before.maps(src, dst, q) == first.maps(src, dst, q));
                let s: usize = (p - NAT_PORT_START) as usize;
                let b: usize = bucket(src, dst);
                self.slots.set(
                    s,
                    Some(TcpNatEntry { source: src, destination: dst, last_active: now }),
                );
                self.buckets[b].push(p);
                proof {
                    self.lemma_inserted(before, src, dst, p, b as int, now);
                    assert(self.sessions() =~= before.sessions().insert(
                        p,
                        (TcpNatEntry { source: src, destination: dst, last_active: now }),
                    ));
                }
                Some(p)
            },
        }
    }

    /// A connection has one port only.
    proof fn lemma_one_port(self, src: SocketAddr, dst: SocketAddr, p: u16)
        requires
            self.wf(),
            self.maps(src, dst, p),
        ensures
            forall|q: u16| #[trigger] self.maps(src, dst, q) ==> q == p,
            !self.unknown(src, dst),
    {
        assert forall|q: u16| #[trigger] self.maps(src, dst, q) implies q == p by {
            let s = p - NAT_PORT_START;
            let t = q - NAT_PORT_START;
            assert(self.slots@[s] is Some && self.slots@[t] is Some);
        }
    }

    proof fn lemma_inserted(
        self,
        before: Self,
        src: SocketAddr,
        dst: SocketAddr,
        p: u16,
        b: int,
        now: u64,
    )
        requires
            before.wf(),
            before.unknown(src, dst),
            p >= NAT_PORT_START,
            before.slots@[p - NAT_PORT_START] is None,
            b == bucket_of(src, dst),
            self.slots@ == before.slots@.update(
                p - NAT_PORT_START,
                Some(TcpNatEntry { source: src, destination: dst, last_active: now }),
            ),
            self.buckets@.len() == before.buckets@.len(),
            self.buckets@[b]@ == before.buckets@[b]@.push(p),
            forall|c: int| 0 <= c < BUCKETS && c != b ==> self.buckets@[c] == before.buckets@[c],
        ensures
            self.wf(),
    {
        assert forall|c: int, j: int|
            0 <= c < BUCKETS && 0 <= j < self.buckets@[c]@.len() implies self.listed(
            c,
            #[trigger] self.buckets@[c]@[j],
        ) by {
            if j < before.buckets@[c]@.len() {
                assert(before.listed(c, before.buckets@[c]@[j]));
            }
        }
        assert forall|s: int|
            0 <= s < NAT_PORT_COUNT && (#[trigger] self.slots@[s]) is Some implies
            self.buckets@[bucket_of(
            self.slots@[s]->0.source,
            self.slots@[s]->0.destination,
        )]@.contains((s + NAT_PORT_START) as u16) by {
            let list = self.buckets@[bucket_of(
                self.slots@[s]->0.source,
                self.slots@[s]->0.destination,
            )]@;
            if s == p - NAT_PORT_START {
                assert(list[before.buckets@[b]@.len() as int] == p);
            } else {
                let c = bucket_of(before.slots@[s]->0.source, before.slots@[s]->0.destination);
                assert(before.buckets@[c]@.contains((s + NAT_PORT_START) as u16));
                let j = choose|j: int|
                    0 <= j < before.buckets@[c]@.len() && before.buckets@[c]@[j] == (s
                        + NAT_PORT_START) as u16;
                assert(list[j] == (s + NAT_PORT_START) as u16);
            }
        }
        assert forall|c: int, i: int, j: int|
            0 <= c < BUCKETS && 0 <= i < j < self.buckets@[c]@.len() implies
            #[trigger] self.buckets@[c]@[i] != #[trigger] self.buckets@[c]@[j] by {
            assert(i < before.buckets@[c]@.len());
            assert(before.listed(c, before.buckets@[c]@[i]));
            if j < before.buckets@[c]@.len() {
                assert(before.buckets@[c]@[i] != before.buckets@[c]@[j]);
            }
        }
        assert(self.keys_differ()) by {
            assert forall|s: int, t: int|
                0 <= s < t < NAT_PORT_COUNT && (#[trigger] self.slots@[s]) is Some && (
                #[trigger] self.slots@[t]) is Some implies !(self.slots@[s]->0.source
                == self.slots@[t]->0.source && self.slots@[s]->0.destination
                == self.slots@[t]->0.destination) by {
                let at = p - NAT_PORT_START;
                if s == at {
                    assert(!before.maps(src, dst, (t + NAT_PORT_START) as u16));
                } else if t == at {
                    assert(!before.maps(src, dst, (s + NAT_PORT_START) as u16));
                } else {
                    assert(before.slots@[s] is Some && before.slots@[t] is Some);
                }
            }
        }
    }

    /// The connection on a port, which counts as used.
    pub fn lookup_back(&mut self, nat_port: u16, now: u64) -> (r: Option<(SocketAddr, SocketAddr)>)
        requires
            old(self).wf(),
        ensures
            final(self).wf(),
            looked_back(*old(self), *final(self), nat_port, now, r),
    {
        if nat_port < NAT_PORT_START {
            return None;
        }
        match self.slots[(nat_port - NAT_PORT_START) as usize] {
            None => None,
            Some(e) => {
                self.touch(nat_port, now);
                Some((e.source, e.destination))
            },
        }
    }

    /// Frees the port `p`.
    fn release(&mut self, p: u16)
        requires
            old(self).wf(),
            old(self).sessions().contains_key(p),
        ensures
            final(self).wf(),
            final(self).cursor() == old(self).cursor(),
            final(self).sessions() == old(self).sessions().remove(p),
    {
        let ghost before = *self;
        let s: usize = (p - NAT_PORT_START) as usize;
        if let Some(e) = self.slots[s] {
            let b: usize = bucket(e.source, e.destination);
            let mut j: usize = 0;
            assert(before.buckets@[b as int]@.contains((s + NAT_PORT_START) as u16));
            while self.buckets[b][j] != p
                invariant
                    before == *self,
                    b < BUCKETS,
                    self.buckets@.len() == BUCKETS,
                    j < self.buckets@[b as int].len(),
                    exists|i: int|
                        j <= i < self.buckets@[b as int]@.len() && self.buckets@[b as int]@[i] == p,
                decreases self.buckets@[b as int]@.len() - j,
            {
                j += 1;
            }
            self.buckets[b].remove(j);
            self.slots.set(s, None);
            proof {
                self.lemma_removed(before, p, b as int, j as int);
            }
        }
        assert(self.sessions() =~= before.sessions().remove(p));
    }

    proof fn lemma_removed(self, before: Self, p: u16, b: int, j: int)
        requires
            before.wf(),
            p >= NAT_PORT_START,
            before.slots@[p - NAT_PORT_START] is Some,
            b == bucket_of(
                before.slots@[p - NAT_PORT_START]->0.source,
                before.slots@[p - NAT_PORT_START]->0.destination,
            ),
            0 <= b < BUCKETS,
            0 <= j < before.buckets@[b]@.len(),
            before.buckets@[b]@[j] == p,
            self.slots@ == before.slots@.update(p - NAT_PORT_START, None),
            self.buckets@.len() == before.buckets@.len(),
            self.buckets@[b]@ == before.buckets@[b]@.remove(j),
            forall|c: int| 0 <= c < BUCKETS && c != b ==> self.buckets@[c] == before.buckets@[c],
        ensures
            self.wf(),
    {
        assert forall|c: int, i: int|
            0 <= c < BUCKETS && 0 <= i < self.buckets@[c]@.len() implies self.listed(
            c,
            #[trigger] self.buckets@[c]@[i],
        ) by {
            let i0 = if c == b && i >= j {
                i + 1
            } else {
                i
            };
            assert(self.buckets@[c]@[i] == before.buckets@[c]@[i0]);
            assert(before.listed(c, before.buckets@[c]@[i0]));
            if before.buckets@[c]@[i0] == p {
                assert(c == b);
                assert(before.buckets@[b]@[i0] == before.buckets@[b]@[j]);
            }
        }
        assert forall|s: int|
            0 <= s < NAT_PORT_COUNT && (#[trigger] self.slots@[s]) is Some implies
            self.buckets@[bucket_of(
            self.slots@[s]->0.source,
            self.slots@[s]->0.destination,
        )]@.contains((s + NAT_PORT_START) as u16) by {
            let c = bucket_of(before.slots@[s]->0.source, before.slots@[s]->0.destination);
            let q = (s + NAT_PORT_START) as u16;
            assert(before.buckets@[c]@.contains(q));
            let i = choose|i: int|
                0 <= i < before.buckets@[c]@.len() && before.buckets@[c]@[i] == q;
            if c == b {
                assert(i != j);
                if i < j {
                    assert(self.buckets@[c]@[i] == q);
                } else {
                    assert(self.buckets@[c]@[i - 1] == q);
                }
            }
        }
        assert forall|c: int, i: int, k: int|
            0 <= c < BUCKETS && 0 <= i < k < self.buckets@[c]@.len() implies
            #[trigger] self.buckets@[c]@[i] != #[trigger] self.buckets@[c]@[k] by {
            let i0 = if c == b && i >= j {
                i + 1
            } else {
                i
            };
            let k0 = if c == b && k >= j {
                k + 1
            } else {
                k
            };
            assert(before.buckets@[c]@[i0] != before.buckets@[c]@[k0]);
        }
        assert(self.keys_differ()) by {
            assert forall|s: int, t: int|
                0 <= s < t < NAT_PORT_COUNT && (#[trigger] self.slots@[s]) is Some && (
                #[trigger] self.slots@[t]) is Some implies !(self.slots@[s]->0.source
                == self.slots@[t]->0.source && self.slots@[s]->0.destination
                == self.slots@[t]->0.destination) by {
                assert(before.slots@[s] is Some && before.slots@[t] is Some);
            }
        }
    }

    /// Drops the connections that have not been used for longer than
    /// `timeout`.
    pub fn gc(&mut self, now: u64, timeout: u64)
        requires
            old(self).wf(),
        ensures
            final(self).wf(),
            final(self).cursor() == old(self).cursor(),
            final(self).sessions() == old(self).sessions().restrict(
                Set::new(|p: u16| !expired(old(self).sessions()[p].last_active, now, timeout)),
            ),
    {
        let ghost before = *self;
        let mut s: usize = 0;
        while s < NAT_PORT_COUNT
            invariant
                s <= NAT_PORT_COUNT,
                self.wf(),
                self.cursor() == before.cursor(),
                self.sessions() == before.sessions().restrict(
                    Set::new(
                        |p: u16|
                            p >= NAT_PORT_START + s || !expired(
                                before.sessions()[p].last_active,
                                now,
                                timeout,
                            ),
                    ),
                ),
            decreases NAT_PORT_COUNT - s,
        {
            let p: u16 = NAT_PORT_START + s as u16;
            let ghost now_at = self.sessions();
            if let Some(e) = self.slots[s] {
                assert(now_at.contains_key(p) && now_at[p] == e);
                assert(before.sessions()[p] == e);
                if now > e.last_active && now - e.last_active > timeout {
                    self.release(p);
                }
            } else {
                assert(!now_at.contains_key(p));
            }
            proof {
                let keep = before.sessions().restrict(
                    Set::new(
                        |q: u16|
                            q >= NAT_PORT_START + s + 1 || !expired(
                                before.sessions()[q].last_active,
                                now,
                                timeout,
                            ),
                    ),
                );
                assert forall|q: u16| #[trigger]
                    self.sessions().contains_key(q) == keep.contains_key(q) by {
                    if q != p {
                        assert(self.sessions().contains_key(q) == now_at.contains_key(q));
                    }
                }
            }
            assert(self.sessions() =~= before.sessions().restrict(
                Set::new(
                    |q: u16|
                        q >= NAT_PORT_START + s + 1 || !expired(
                            before.sessions()[q].last_active,
                            now,
                            timeout,
                        ),
                ),
            ));
            s += 1;
        }
        assert(self.sessions() =~= before.sessions().restrict(
            Set::new(|p: u16| !expired(before.sessions()[p].last_active, now, timeout)),
        ));
    }

    /// Drops all connections.
    pub fn clear(&mut self)
        requires
            old(self).wf(),
        ensures
            final(self).wf(),
            final(self).sessions() == Map::<u16, TcpNatEntry>::empty(),
            final(self).cursor() == old(self).cursor(),
    {
        let mut fresh = TcpNat::new();
        fresh.port_index = self.port_index;
        proof {
            let blank = TcpNat { port_index: NAT_PORT_START, ..fresh };
            assert(fresh.sessions() =~= Map::<u16, TcpNatEntry>::empty());
        }
        *self = fresh;
    }
}

/// What looking up the connection `(src, dst)` gives and does. A known one
/// keeps its port. A new one gets the first free port from the cursor on, and
/// none if all are in use. All other connections stay as they are.
pub open spec fn looked_up(
    before: TcpNat,
    after: TcpNat,
    src: SocketAddr,
    dst: SocketAddr,
    now: u64,
    r: Option<u16>,
) -> bool {
    &&& forall|p: u16| #[trigger]
        before.maps(src, dst, p) ==> r == Some(p) && after.cursor() == before.cursor()
            && after.sessions() == before.sessions().insert(
            p,
            (TcpNatEntry {
                last_active: refreshed(before.sessions()[p].last_active, now),
                ..before.sessions()[p]
            }),
        )
    &&& before.unknown(src, dst) ==> match r {
        None => {
            &&& before.exhausted()
            &&& after.sessions() == before.sessions()
            &&& after.cursor() == (probe(before.cursor(), NAT_PORT_COUNT - 1) + 1) % 65536
        },
        Some(p) => {
            &&& p >= NAT_PORT_START
            &&& !before.sessions().contains_key(p)
            &&& after.sessions() == before.sessions().insert(
                p,
                (TcpNatEntry { source: src, destination: dst, last_active: now }),
            )
            &&& after.cursor() == (p + 1) % 65536
            &&& exists|k: int| #[trigger]
                probe(before.cursor(), k) == p && 0 <= k < NAT_PORT_COUNT && forall|j: int|
                    0 <= j < k ==> before.sessions().contains_key(
                        #[trigger] probe(before.cursor(), j) as u16,
                    )
        },
    }
    &&& r matches Some(p) ==> after.maps(src, dst, p)
}

/// What looking up the connection on a port gives and does.
pub open spec fn looked_back(
    before: TcpNat,
    after: TcpNat,
    port: u16,
    now: u64,
    r: Option<(SocketAddr, SocketAddr)>,
) -> bool {
    &&& after.cursor() == before.cursor()
    &&& if before.sessions().contains_key(port) {
        let e = before.sessions()[port];
        &&& r == Some((e.source, e.destination))
        &&& after.sessions() == before.sessions().insert(
            port,
            (TcpNatEntry { last_active: refreshed(e.last_active, now), ..e }),
        )
    } else {
        r is None && after.sessions() == before.sessions()
    }
}

/// A connection has one port only, and that lies in the range for translated
/// ports.
pub proof fn law_one_port_per_connection(
    table: TcpNat,
    src: SocketAddr,
    dst: SocketAddr,
    p: u16,
    q: u16,
)
    requires
        table.wf(),
        table.maps(src, dst, p),
        table.maps(src, dst, q),
    ensures
        p == q,
        NAT_PORT_START <= p <= NAT_PORT_END,
{
    table.lemma_one_port(src, dst, p);
}

/// The port that a connection was given leads back to that connection.
pub proof fn law_port_leads_back(
    before: TcpNat,
    middle: TcpNat,
    after: TcpNat,
    src: SocketAddr,
    dst: SocketAddr,
    p: u16,
    t1: u64,
    t2: u64,
    r: Option<(SocketAddr, SocketAddr)>,
)
    requires
        looked_up(before, middle, src, dst, t1, Some(p)),
        looked_back(middle, after, p, t2, r),
    ensures
        r == Some((src, dst)),
        after.maps(src, dst, p),
{
}

/// No connection is dropped or given another port because another one is
/// looked up.
pub proof fn law_lookup_evicts_nothing(
    before: TcpNat,
    after: TcpNat,
    src: SocketAddr,
    dst: SocketAddr,
    now: u64,
    r: Option<u16>,
    q: u16,
)
    requires
        before.wf(),
        looked_up(before, after, src, dst, now, r),
        before.sessions().contains_key(q),
    ensures
        after.sessions().contains_key(q),
        after.sessions()[q].source == before.sessions()[q].source,
        after.sessions()[q].destination == before.sessions()[q].destination,
{
    if !before.unknown(src, dst) {
        let p = choose|p: u16| before.maps(src, dst, p);
        assert(before.maps(src, dst, p));
    }
}

/// Nothing has been heard for longer than `timeout`.
pub open spec fn expired(last: u64, now: u64, timeout: u64) -> bool {
    now - last > timeout
}

} // verus!
