//! The packet filters of strict routing on Windows: which connections the
//! system's filter engine permits and which it blocks.
use vstd::prelude::*;

verus! {

/// Permits what this process sends.
pub const WEIGHT_PERMIT_APP: u8 = 13;

/// Blocks an IP version that the device has no address of.
pub const WEIGHT_BLOCK_FAMILY: u8 = 12;

/// Permits what goes through the device.
pub const WEIGHT_PERMIT_TUN: u8 = 11;

/// Blocks name resolution past the device.
pub const WEIGHT_BLOCK_DNS: u8 = 10;

/// The port of name resolution.
pub const DNS_PORT: u16 = 53;

/// Which connections a filter is about.
#[derive(Clone, Copy, Debug, PartialEq, Eq, Structural)]
pub enum Condition {
    Anything,
    ThisProcess,
    Interface(u32),
    RemotePort(u16),
}

/// A filter of one IP version. Among those that match a connection the
/// heaviest decides.
#[derive(Debug)]
pub struct Filter {
    pub v6: bool,
    pub weight: u8,
    pub permit: bool,
    /// No lighter filter of another provider may overrule this one.
    pub clear_action_right: bool,
    pub condition: Condition,
    pub name: String,
}

/// What a filter says.
pub struct FilterView {
    pub v6: bool,
    pub weight: u8,
    pub permit: bool,
    pub clear_action_right: bool,
    pub condition: Condition,
    pub name: Seq<char>,
}

impl View for Filter {
    type V = FilterView;

    open spec fn view(&self) -> FilterView {
        FilterView {
            v6: self.v6,
            weight: self.weight,
            permit: self.permit,
            clear_action_right: self.clear_action_right,
            condition: self.condition,
            name: self.name@,
        }
    }
}

pub open spec fn filter_views(v: Seq<Filter>) -> Seq<FilterView> {
    Seq::new(v.len(), |k: int| v[k]@)
}

pub open spec fn group_views(v: Seq<Vec<Filter>>) -> Seq<Seq<FilterView>> {
    Seq::new(v.len(), |k: int| filter_views(v[k]@))
}

/// Permits what this process sends, whatever else is blocked.
pub open spec fn protects(v6: bool) -> FilterView {
    FilterView {
        v6,
        weight: WEIGHT_PERMIT_APP,
        permit: true,
        clear_action_right: true,
        condition: Condition::ThisProcess,
        name: if v6 {
            "reflex protect ipv6"@
        } else {
            "reflex protect ipv4"@
        },
    }
}

/// Blocks an IP version.
pub open spec fn blocks_family(v6: bool) -> FilterView {
    FilterView {
        v6,
        weight: WEIGHT_BLOCK_FAMILY,
        permit: false,
        clear_action_right: false,
        condition: Condition::Anything,
        name: if v6 {
            "reflex block ipv6"@
        } else {
            "reflex block ipv4"@
        },
    }
}

/// Permits what goes through the device.
pub open spec fn permits_tun(v6: bool, index: u32) -> FilterView {
    FilterView {
        v6,
        weight: WEIGHT_PERMIT_TUN,
        permit: true,
        clear_action_right: false,
        condition: Condition::Interface(index),
        name: if v6 {
            "reflex allow ipv6"@
        } else {
            "reflex allow ipv4"@
        },
    }
}

/// Blocks name resolution.
pub open spec fn blocks_dns(v6: bool) -> FilterView {
    FilterView {
        v6,
        weight: WEIGHT_BLOCK_DNS,
        permit: false,
        clear_action_right: false,
        condition: Condition::RemotePort(DNS_PORT),
        name: if v6 {
            "reflex block ipv6 dns"@
        } else {
            "reflex block ipv4 dns"@
        },
    }
}

/// One group where it is wanted, else none.
pub open spec fn group_if(want: bool, g: Seq<FilterView>) -> Seq<Seq<FilterView>> {
    if want {
        seq![g]
    } else {
        Seq::empty()
    }
}

/// The groups of filters of strict routing, in the order in which they are
/// added. Where a filter cannot be added, the rest of its group is left out.
pub open spec fn strict_groups(
    program: bool,
    index: Option<u32>,
    has_v4: bool,
    has_v6: bool,
) -> Seq<Seq<FilterView>> {
    group_if(program, seq![protects(false), protects(true)]) + group_if(
        !has_v4,
        seq![blocks_family(false)],
    ) + group_if(!has_v6, seq![blocks_family(true)]) + (match index {
        Some(i) => group_if(has_v4, seq![permits_tun(false, i)]) + group_if(
            has_v6,
            seq![permits_tun(true, i)],
        ),
        None => Seq::empty(),
    }) + seq![seq![blocks_dns(false), blocks_dns(true)]]
}

fn protect_filter(v6: bool) -> (f: Filter)
    ensures
        f@ == protects(v6),
{
    let name: &str = if v6 {
        "reflex protect ipv6"
    } else {
        "reflex protect ipv4"
    };
    Filter {
        v6,
        weight: WEIGHT_PERMIT_APP,
        permit: true,
        clear_action_right: true,
        condition: Condition::ThisProcess,
        name: name.to_owned(),
    }
}

fn family_filter(v6: bool) -> (f: Filter)
    ensures
        f@ == blocks_family(v6),
{
    let name: &str = if v6 {
        "reflex block ipv6"
    } else {
        "reflex block ipv4"
    };
    Filter {
        v6,
        weight: WEIGHT_BLOCK_FAMILY,
        permit: false,
        clear_action_right: false,
        condition: Condition::Anything,
        name: name.to_owned(),
    }
}

fn tun_filter(v6: bool, index: u32) -> (f: Filter)
    ensures
        f@ == permits_tun(v6, index),
{
    let name: &str = if v6 {
        "reflex allow ipv6"
    } else {
        "reflex allow ipv4"
    };
    Filter {
        v6,
        weight: WEIGHT_PERMIT_TUN,
        permit: true,
        clear_action_right: false,
        condition: Condition::Interface(index),
        name: name.to_owned(),
    }
}

fn dns_filter(v6: bool) -> (f: Filter)
    ensures
        f@ == blocks_dns(v6),
{
    let name: &str = if v6 {
        "reflex block ipv6 dns"
    } else {
        "reflex block ipv4 dns"
    };
    Filter {
        v6,
        weight: WEIGHT_BLOCK_DNS,
        permit: false,
        clear_action_right: false,
        condition: Condition::RemotePort(DNS_PORT),
        name: name.to_owned(),
    }
}

/// The filters that a session of the system's filter engine gets. Where one
/// cannot be added, the rest of its group is left out.
pub struct WfpSession {
    pub groups: Vec<Vec<Filter>>,
}

impl WfpSession {
    pub open spec fn filters(self) -> Seq<Seq<FilterView>> {
        group_views(self.groups@)
    }

    /// A session without filters.
    pub fn new() -> (s: Self)
        ensures
            s.filters() == Seq::<Seq<FilterView>>::empty(),
    {
        let s = WfpSession { groups: Vec::new() };
        assert(s.filters() =~= Seq::<Seq<FilterView>>::empty());
        s
    }

    fn push_group(&mut self, g: Vec<Filter>)
        ensures
            final(self).filters() == old(self).filters().push(filter_views(g@)),
    {
        let ghost before = self.filters();
        let ghost added = filter_views(g@);
        self.groups.push(g);
        assert(self.filters() =~= before.push(added));
    }

    /// Permits what this process sends, in both IP versions.
    pub fn protect_process(&mut self)
        ensures
            final(self).filters() == old(self).filters().push(
                seq![protects(false), protects(true)],
            ),
    {
        let mut g: Vec<Filter> = Vec::new();
        g.push(protect_filter(false));
        g.push(protect_filter(true));
        assert(filter_views(g@) =~= seq![protects(false), protects(true)]);
        self.push_group(g);
    }

    /// Blocks an IP version.
    pub fn block_family(&mut self, v6: bool)
        ensures
            final(self).filters() == old(self).filters().push(seq![blocks_family(v6)]),
    {
        let mut g: Vec<Filter> = Vec::new();
        g.push(family_filter(v6));
        assert(filter_views(g@) =~= seq![blocks_family(v6)]);
        self.push_group(g);
    }

    /// Permits what goes through the device in an IP version.
    pub fn permit_tun_interface(&mut self, v6: bool, index: u32)
        ensures
            final(self).filters() == old(self).filters().push(seq![permits_tun(v6, index)]),
    {
        let mut g: Vec<Filter> = Vec::new();
        g.push(tun_filter(v6, index));
        assert(filter_views(g@) =~= seq![permits_tun(v6, index)]);
        self.push_group(g);
    }

    /// Blocks name resolution, in both IP versions.
    pub fn block_dns(&mut self)
        ensures
            final(self).filters() == old(self).filters().push(
                seq![blocks_dns(false), blocks_dns(true)],
            ),
    {
        let mut g: Vec<Filter> = Vec::new();
        g.push(dns_filter(false));
        g.push(dns_filter(true));
        assert(filter_views(g@) =~= seq![blocks_dns(false), blocks_dns(true)]);
        self.push_group(g);
    }
}

/// The session of strict routing. `program` tells whether this process's
/// program is known, `index` is the device's.
pub fn create_strict_session(
    program: bool,
    index: Option<u32>,
    has_v4: bool,
    has_v6: bool,
) -> (s: WfpSession)
    ensures
        s.filters() == strict_groups(program, index, has_v4, has_v6),
{
    let mut s: WfpSession = WfpSession::new();
    let ghost a = group_if(program, seq![protects(false), protects(true)]);
    let ghost b = group_if(!has_v4, seq![blocks_family(false)]);
    let ghost c = group_if(!has_v6, seq![blocks_family(true)]);
    if program {
        s.protect_process();
    }
    assert(s.filters() =~= a);
    if !has_v4 {
        s.block_family(false);
    }
    assert(s.filters() =~= a + b);
    if !has_v6 {
        s.block_family(true);
    }
    assert(s.filters() =~= a + b + c);
    let ghost d = match index {
        Some(i) => group_if(has_v4, seq![permits_tun(false, i)]) + group_if(
            has_v6,
            seq![permits_tun(true, i)],
        ),
        None => Seq::empty(),
    };
    if let Some(i) = index {
        if has_v4 {
            s.permit_tun_interface(false, i);
        }
        assert(s.filters() =~= a + b + c + group_if(has_v4, seq![permits_tun(false, i)]));
        if has_v6 {
            s.permit_tun_interface(true, i);
        }
    }
    assert(s.filters() =~= a + b + c + d);
    s.block_dns();
    assert(s.filters() =~= a + b + c + d + seq![seq![blocks_dns(false), blocks_dns(true)]]);
    s
}

/// A connection that some process opens.
pub struct Connection {
    pub v6: bool,
    pub this_process: bool,
    pub interface: u32,
    pub remote_port: u16,
}

/// A filter is about a connection.
pub open spec fn matches_filter(f: FilterView, c: Connection) -> bool {
    f.v6 == c.v6 && (match f.condition {
        Condition::Anything => true,
        Condition::ThisProcess => c.this_process,
        Condition::Interface(i) => c.interface == i,
        Condition::RemotePort(p) => c.remote_port == p,
    })
}

/// A filter stands in one of the groups.
pub open spec fn in_groups(g: Seq<Seq<FilterView>>, f: FilterView) -> bool {
    exists|i: int| 0 <= i < g.len() && (#[trigger] g[i]).contains(f)
}

/// The filters decide a connection this way: one of them that is about it says
/// so, and every one about it that says otherwise is lighter.
pub open spec fn decided(g: Seq<Seq<FilterView>>, c: Connection, permit: bool) -> bool {
    exists|f: FilterView| #[trigger]
        in_groups(g, f) && matches_filter(f, c) && f.permit == permit && heaviest(g, c, f)
}

pub open spec fn heaviest(g: Seq<Seq<FilterView>>, c: Connection, f: FilterView) -> bool {
    forall|o: FilterView| #[trigger]
        in_groups(g, o) && matches_filter(o, c) && o.permit != f.permit ==> o.weight < f.weight
}

proof fn lemma_in_both(a: Seq<Seq<FilterView>>, b: Seq<Seq<FilterView>>, f: FilterView)
    ensures
        in_groups(a + b, f) <==> in_groups(a, f) || in_groups(b, f),
{
    let s = a + b;
    if in_groups(a, f) {
        let i = choose|i: int| 0 <= i < a.len() && (#[trigger] a[i]).contains(f);
        assert(s[i] == a[i]);
    }
    if in_groups(b, f) {
        let i = choose|i: int| 0 <= i < b.len() && (#[trigger] b[i]).contains(f);
        assert(s[a.len() + i] == b[i]);
    }
    if in_groups(s, f) {
        let i = choose|i: int| 0 <= i < s.len() && (#[trigger] s[i]).contains(f);
        if i < a.len() {
            assert(a[i].contains(f));
        } else {
            assert(b[i - a.len()].contains(f));
        }
    }
}

proof fn lemma_in_single(want: bool, g: Seq<FilterView>, f: FilterView)
    ensures
        in_groups(group_if(want, g), f) <==> want && g.contains(f),
{
    if want && g.contains(f) {
        assert(group_if(want, g)[0].contains(f));
    }
}

/// Which filters strict routing has.
pub open spec fn is_strict(
    program: bool,
    index: Option<u32>,
    has_v4: bool,
    has_v6: bool,
    f: FilterView,
) -> bool {
    ||| program && (f == protects(false) || f == protects(true))
    ||| !has_v4 && f == blocks_family(false)
    ||| !has_v6 && f == blocks_family(true)
    ||| has_v4 && index is Some && f == permits_tun(false, index->0)
    ||| has_v6 && index is Some && f == permits_tun(true, index->0)
    ||| f == blocks_dns(false)
    ||| f == blocks_dns(true)
}

pub proof fn lemma_strict(
    program: bool,
    index: Option<u32>,
    has_v4: bool,
    has_v6: bool,
    f: FilterView,
)
    ensures
        in_groups(strict_groups(program, index, has_v4, has_v6), f) <==> is_strict(
            program,
            index,
            has_v4,
            has_v6,
            f,
        ),
{
    let pa = seq![protects(false), protects(true)];
    let pb = seq![blocks_family(false)];
    let pc = seq![blocks_family(true)];
    let pe = seq![blocks_dns(false), blocks_dns(true)];
    let a = group_if(program, pa);
    let b = group_if(!has_v4, pb);
    let c = group_if(!has_v6, pc);
    let e = seq![pe];
    assert(e =~= group_if(true, pe));
    lemma_in_single(program, pa, f);
    lemma_in_single(!has_v4, pb, f);
    lemma_in_single(!has_v6, pc, f);
    lemma_in_single(true, pe, f);
    assert(pa.contains(f) <==> f == protects(false) || f == protects(true)) by {
        assert(pa[0] == protects(false) && pa[1] == protects(true));
    }
    assert(pb.contains(f) <==> f == blocks_family(false)) by {
        assert(pb[0] == blocks_family(false));
    }
    assert(pc.contains(f) <==> f == blocks_family(true)) by {
        assert(pc[0] == blocks_family(true));
    }
    assert(pe.contains(f) <==> f == blocks_dns(false) || f == blocks_dns(true)) by {
        assert(pe[0] == blocks_dns(false) && pe[1] == blocks_dns(true));
    }
    lemma_in_both(a, b, f);
    lemma_in_both(a + b, c, f);
    match index {
        Some(i) => {
            let x = seq![permits_tun(false, i)];
            let y = seq![permits_tun(true, i)];
            let d = group_if(has_v4, x) + group_if(has_v6, y);
            assert(x.contains(f) <==> f == permits_tun(false, i)) by {
                assert(x[0] == permits_tun(false, i));
            }
            assert(y.contains(f) <==> f == permits_tun(true, i)) by {
                assert(y[0] == permits_tun(true, i));
            }
            lemma_in_single(has_v4, x, f);
            lemma_in_single(has_v6, y, f);
            lemma_in_both(group_if(has_v4, x), group_if(has_v6, y), f);
            lemma_in_both(a + b + c, d, f);
            lemma_in_both(a + b + c + d, e, f);
        },
        None => {
            let d = Seq::<Seq<FilterView>>::empty();
            lemma_in_both(a + b + c, d, f);
            lemma_in_both(a + b + c + d, e, f);
        },
    }
}

proof fn lemma_decided(
    program: bool,
    index: Option<u32>,
    has_v4: bool,
    has_v6: bool,
    c: Connection,
    f: FilterView,
)
    requires
        is_strict(program, index, has_v4, has_v6, f),
        matches_filter(f, c),
        forall|o: FilterView|
            is_strict(program, index, has_v4, has_v6, o) && matches_filter(o, c) && o.permit
                != f.permit ==> o.weight < f.weight,
    ensures
        decided(strict_groups(program, index, has_v4, has_v6), c, f.permit),
{
    let g = strict_groups(program, index, has_v4, has_v6);
    lemma_strict(program, index, has_v4, has_v6, f);
    assert forall|o: FilterView| #[trigger]
        in_groups(g, o) && matches_filter(o, c) && o.permit != f.permit implies o.weight
        < f.weight by {
        lemma_strict(program, index, has_v4, has_v6, o);
    }
    assert(heaviest(g, c, f));
}

/// Whatever strict routing blocks, this process's own connections are
/// permitted where its program is known.
pub proof fn law_own_connections_permitted(
    index: Option<u32>,
    has_v4: bool,
    has_v6: bool,
    c: Connection,
)
    requires
        c.this_process,
    ensures
        decided(strict_groups(true, index, has_v4, has_v6), c, true),
{
    lemma_decided(true, index, has_v4, has_v6, c, protects(c.v6));
}

/// What another process sends in an IP version that the device has no address
/// of is blocked.
pub proof fn law_missing_family_blocked(
    program: bool,
    index: Option<u32>,
    has_v4: bool,
    has_v6: bool,
    c: Connection,
)
    requires
        !c.this_process,
        if c.v6 {
            !has_v6
        } else {
            !has_v4
        },
    ensures
        decided(strict_groups(program, index, has_v4, has_v6), c, false),
{
    lemma_decided(program, index, has_v4, has_v6, c, blocks_family(c.v6));
}

/// What goes through the device in an IP version that it has an address of is
/// permitted, name resolution too.
pub proof fn law_tun_connections_permitted(
    program: bool,
    index: u32,
    has_v4: bool,
    has_v6: bool,
    c: Connection,
)
    requires
        c.interface == index,
        if c.v6 {
            has_v6
        } else {
            has_v4
        },
    ensures
        decided(strict_groups(program, Some(index), has_v4, has_v6), c, true),
{
    lemma_decided(program, Some(index), has_v4, has_v6, c, permits_tun(c.v6, index));
}

/// Name resolution of another process past the device is blocked.
pub proof fn law_dns_past_tun_blocked(
    program: bool,
    index: Option<u32>,
    has_v4: bool,
    has_v6: bool,
    c: Connection,
)
    requires
        !c.this_process,
        c.remote_port == DNS_PORT,
        index is Some ==> c.interface != index->0,
    ensures
        decided(strict_groups(program, index, has_v4, has_v6), c, false),
{
    lemma_decided(program, index, has_v4, has_v6, c, blocks_dns(c.v6));
}

} // verus!
