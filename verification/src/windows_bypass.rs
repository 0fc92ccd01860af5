//! Keeping this process's own traffic out of the device on Windows: a route of
//! its own address through the physical gateway, and the interfaces that its
//! sockets are bound to.
use vstd::prelude::*;
use vstd::string::*;

use crate::addr::Ipv4Addr;
use crate::command;
use crate::command::command;
use crate::interface_finder::PhysicalInterfaces;
use crate::render;
use crate::render::{dec_string, v4_string};
use crate::text;
use crate::windows;
use crate::windows::{
    answered_text, default_route_query, get_default_gateway_v4, interface_address_query,
    parse_index, RouteProperty,
};

verus! {

/// How far adding or removing the route has come. The gateway is known where
/// the route is being added.
#[derive(Debug)]
pub enum BypassStage {
    /// Ask which interface the IPv6 default route leaves through.
    IndexV6,
    /// Ask which interface the IPv4 default route leaves through.
    Index { adding: bool },
    /// Ask for the gateway of the IPv4 default route.
    Gateway { index: u32 },
    /// Ask for the interface's own address.
    Address { index: u32, gateway: Option<Ipv4Addr> },
    /// Delete the route.
    Delete { index: u32, gateway: Option<Ipv4Addr>, address: String },
    /// Add the route.
    Add { index: u32, next_hop: Ipv4Addr, address: String },
    /// Nothing is left to do; what was added, if anything.
    Done { route: Option<String> },
}

/// A stage with its texts as sequences.
pub enum StageView {
    IndexV6,
    Index { adding: bool },
    Gateway { index: u32 },
    Address { index: u32, gateway: Option<Ipv4Addr> },
    Delete { index: u32, gateway: Option<Ipv4Addr>, address: Seq<char> },
    Add { index: u32, next_hop: Ipv4Addr, address: Seq<char> },
    Done { route: Option<Seq<char>> },
}

impl View for BypassStage {
    type V = StageView;

    open spec fn view(&self) -> StageView {
        match *self {
            BypassStage::IndexV6 => StageView::IndexV6,
            BypassStage::Index { adding } => StageView::Index { adding },
            BypassStage::Gateway { index } => StageView::Gateway { index },
            BypassStage::Address { index, gateway } => StageView::Address { index, gateway },
            BypassStage::Delete { index, gateway, address } => StageView::Delete {
                index,
                gateway,
                address: address@,
            },
            BypassStage::Add { index, next_hop, address } => StageView::Add {
                index,
                next_hop,
                address: address@,
            },
            BypassStage::Done { route } => StageView::Done {
                route: match route {
                    Some(s) => Some(s@),
                    None => None,
                },
            },
        }
    }
}

/// The command line that deletes the route.
pub open spec fn delete_line(index: u32, address: Seq<char>) -> Seq<Seq<char>> {
    seq![
        "netsh"@,
        "interface"@,
        "ipv4"@,
        "delete"@,
        "route"@,
        address + "/32"@,
        render::dec_text(index as int),
    ]
}

/// The command line that adds the route.
pub open spec fn add_line(index: u32, gateway: Ipv4Addr, address: Seq<char>) -> Seq<Seq<char>> {
    seq![
        "netsh"@,
        "interface"@,
        "ipv4"@,
        "add"@,
        "route"@,
        address + "/32"@,
        render::dec_text(index as int),
        render::v4_text(gateway.bits as int),
        "metric=0"@,
    ]
}

/// The command line of a stage.
pub open spec fn stage_line(stage: StageView) -> Option<Seq<Seq<char>>> {
    match stage {
        StageView::IndexV6 => Some(
            windows::script_line(
                windows::default_route_script(false, RouteProperty::InterfaceIndex),
            ),
        ),
        StageView::Index { adding } => Some(
            windows::script_line(
                windows::default_route_script(true, RouteProperty::InterfaceIndex),
            ),
        ),
        StageView::Gateway { index } => Some(
            windows::script_line(windows::default_route_script(true, RouteProperty::NextHop)),
        ),
        StageView::Address { index, gateway } => Some(
            windows::script_line(windows::interface_address_script(index)),
        ),
        StageView::Delete { index, gateway, address } => Some(delete_line(index, address)),
        StageView::Add { index, next_hop, address } => Some(add_line(index, next_hop, address)),
        StageView::Done { route } => None,
    }
}

fn host_prefix(address: &String) -> (s: String)
    ensures
        s@ == address@ + "/32"@,
{
    let mut s: String = address.as_str().to_owned();
    s.append("/32");
    s
}

/// The command line to run in this stage; none is left when it is done.
pub fn bypass_command(stage: &BypassStage) -> (r: Option<Vec<String>>)
    ensures
        match r {
            Some(c) => stage_line(stage@) == Some(text::str_views(c@)),
            None => stage_line(stage@) is None,
        },
{
    match stage {
        BypassStage::IndexV6 => Some(default_route_query(false, RouteProperty::InterfaceIndex)),
        BypassStage::Index { adding } => Some(
            default_route_query(true, RouteProperty::InterfaceIndex),
        ),
        BypassStage::Gateway { index } => Some(default_route_query(true, RouteProperty::NextHop)),
        BypassStage::Address { index, gateway } => Some(interface_address_query(*index)),
        BypassStage::Delete { index, gateway, address } => {
            let prefix: String = host_prefix(address);
            let idx: String = dec_string(*index as u64);
            let w: Vec<&str> = vec![
                "netsh",
                "interface",
                "ipv4",
                "delete",
                "route",
                prefix.as_str(),
                idx.as_str(),
            ];
            assert(command::words(w@) =~= delete_line(*index, address@));
            Some(command(&w))
        },
        BypassStage::Add { index, next_hop, address } => {
            let prefix: String = host_prefix(address);
            let idx: String = dec_string(*index as u64);
            let gw: String = v4_string(*next_hop);
            let w: Vec<&str> = vec![
                "netsh",
                "interface",
                "ipv4",
                "add",
                "route",
                prefix.as_str(),
                idx.as_str(),
                gw.as_str(),
                "metric=0",
            ];
            assert(command::words(w@) =~= add_line(*index, *next_hop, address@));
            Some(command(&w))
        },
        BypassStage::Done { route } => None,
    }
}

/// The number that an answer holds.
pub open spec fn answered_index(answer: Option<&str>) -> Option<int> {
    match answer {
        Some(out) => text::number(text::trim(out@), u32::MAX as int),
        None => None,
    }
}

/// The IPv4 address that an answer holds.
pub open spec fn answered_v4(answer: Option<&str>) -> Option<int> {
    match answer {
        Some(out) => text::ipv4_of(text::trim(out@)),
        None => None,
    }
}

/// What stands in an answer between white space.
pub open spec fn answered(answer: Option<&str>) -> Seq<char> {
    match answer {
        Some(out) => text::trim(out@),
        None => Seq::empty(),
    }
}

/// What is remembered of an added route.
pub open spec fn route_record(index: u32, gateway: Ipv4Addr, address: Seq<char>) -> Seq<char> {
    render::dec_text(index as int) + "/"@ + render::v4_text(gateway.bits as int) + "/"@ + address
}

/// The next stage. `answer` is what the command printed, if it could be run,
/// and `success` whether it said that it succeeded.
pub open spec fn next_stage(stage: StageView, answer: Option<&str>, success: bool) -> StageView {
    match stage {
        StageView::IndexV6 => StageView::Index { adding: true },
        StageView::Index { adding } => match answered_index(answer) {
            Some(n) => if adding {
                StageView::Gateway { index: n as u32 }
            } else {
                StageView::Address { index: n as u32, gateway: None }
            },
            None => StageView::Done { route: None },
        },
        StageView::Gateway { index } => match answered_v4(answer) {
            Some(bits) => StageView::Address {
                index,
                gateway: Some(Ipv4Addr { bits: bits as u32 }),
            },
            None => StageView::Done { route: None },
        },
        StageView::Address { index, gateway } => if answered(answer).len() > 0 {
            StageView::Delete { index, gateway, address: answered(answer) }
        } else {
            StageView::Done { route: None }
        },
        StageView::Delete { index, gateway, address } => match gateway {
            Some(next_hop) => StageView::Add { index, next_hop, address },
            None => StageView::Done { route: None },
        },
        StageView::Add { index, next_hop, address } => StageView::Done {
            route: if success {
                Some(route_record(index, next_hop, address))
            } else {
                None
            },
        },
        StageView::Done { route } => StageView::Done { route },
    }
}

/// The interface that the next stage registers for IPv4 sockets.
pub open spec fn registered_v4(stage: StageView, answer: Option<&str>, before: u32) -> u32 {
    match stage {
        StageView::Gateway { index } => if answered_v4(answer) is Some {
            index
        } else {
            before
        },
        _ => before,
    }
}

/// The interface that the next stage registers for IPv6 sockets.
pub open spec fn registered_v6(stage: StageView, answer: Option<&str>, before: u32) -> u32 {
    match (stage, answered_index(answer)) {
        (StageView::IndexV6, Some(n)) => n as u32,
        _ => before,
    }
}

fn index_of(answer: Option<&str>) -> (r: Option<u32>)
    ensures
        match r {
            Some(n) => answered_index(answer) == Some(n as int),
            None => answered_index(answer) is None,
        },
{
    match answer {
        Some(out) => parse_index(out),
        None => None,
    }
}

/// Goes on to the next stage, and registers the physical interfaces that the
/// answers name.
pub fn bypass_step(
    stage: BypassStage,
    answer: Option<&str>,
    success: bool,
    physical: &mut PhysicalInterfaces,
) -> (r: BypassStage)
    ensures
        r@ == next_stage(stage@, answer, success),
        final(physical).v4() == registered_v4(stage@, answer, old(physical).v4()),
        final(physical).v6() == registered_v6(stage@, answer, old(physical).v6()),
{
    match stage {
        BypassStage::IndexV6 => {
            if let Some(n) = index_of(answer) {
                physical.set_physical_if_index_v6(n);
            }
            BypassStage::Index { adding: true }
        },
        BypassStage::Index { adding } => match index_of(answer) {
            Some(index) => if adding {
                BypassStage::Gateway { index }
            } else {
                BypassStage::Address { index, gateway: None }
            },
            None => BypassStage::Done { route: None },
        },
        BypassStage::Gateway { index } => {
            let gateway: Option<Ipv4Addr> = match answer {
                Some(out) => get_default_gateway_v4(out),
                None => None,
            };
            if gateway.is_some() {
                physical.set_physical_if_index_v4(index);
                BypassStage::Address { index, gateway }
            } else {
                BypassStage::Done { route: None }
            }
        },
        BypassStage::Address { index, gateway } => {
            let address: Option<String> = match answer {
                Some(out) => answered_text(out),
                None => None,
            };
            match address {
                Some(address) => BypassStage::Delete { index, gateway, address },
                None => BypassStage::Done { route: None },
            }
        },
        BypassStage::Delete { index, gateway, address } => match gateway {
            Some(next_hop) => BypassStage::Add { index, next_hop, address },
            None => BypassStage::Done { route: None },
        },
        BypassStage::Add { index, next_hop, address } => if success {
            let mut s: String = dec_string(index as u64);
            s.append("/");
            s.append(v4_string(next_hop).as_str());
            s.append("/");
            s.append(address.as_str());
            BypassStage::Done { route: Some(s) }
        } else {
            BypassStage::Done { route: None }
        },
        BypassStage::Done { route } => BypassStage::Done { route },
    }
}

/// Starts adding the route.
pub fn add_reflex_bypass() -> (stage: BypassStage)
    ensures
        stage@ == StageView::IndexV6,
{
    BypassStage::IndexV6
}

/// Starts removing the route.
pub fn remove_reflex_bypass() -> (stage: BypassStage)
    ensures
        stage@ == (StageView::Index { adding: false }),
{
    BypassStage::Index { adding: false }
}

/// How many commands are left at most.
pub open spec fn commands_left(stage: StageView) -> int {
    match stage {
        StageView::IndexV6 => 6,
        StageView::Index { adding } => 5,
        StageView::Gateway { index } => 4,
        StageView::Address { index, gateway } => 3,
        StageView::Delete { index, gateway, address } => 2,
        StageView::Add { index, next_hop, address } => 1,
        StageView::Done { route } => 0,
    }
}

/// Each answer brings the end nearer, so that at most six commands are run.
pub proof fn law_bypass_ends(stage: StageView, answer: Option<&str>, success: bool)
    requires
        !(stage is Done),
    ensures
        commands_left(next_stage(stage, answer, success)) < commands_left(stage),
        stage_line(stage) is Some,
{
}

} // verus!
