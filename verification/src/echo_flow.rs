//! The life of a flow of echo requests: it opens a socket, sends requests on
//! through it, and writes what comes back to the tunnel.
use vstd::prelude::*;

use crate::addr::IpAddr;
use crate::echo;
use crate::echo::{prepare_send_payload, reply_from_upstream, FlowKey};

verus! {

/// Where a flow stands.
#[derive(Clone, Copy, Debug, PartialEq, Eq, Structural)]
pub enum FlowStage {
    /// A datagram socket is being opened.
    OpenDatagram,
    /// A raw socket is being opened.
    OpenRaw,
    /// Requests are sent through the socket, and replies come from it.
    Running { raw: bool, local: Option<IpAddr> },
    /// The flow is over.
    Ended,
}

/// What happened in a flow.
pub enum FlowEvent {
    /// The socket is open and connected; it may be known from which address.
    Opened(Option<IpAddr>),
    /// The socket could not be opened, watched or read.
    Failed,
    /// The socket delivered this.
    Received(Vec<u8>),
    /// This request is to be sent on.
    Request(Vec<u8>),
    /// No more requests will come.
    Closed,
}

/// What a flow does next.
pub enum FlowAction {
    /// Open and connect a socket, a raw one or one for datagrams.
    Open { raw: bool },
    /// Wait for the socket and for requests.
    Wait,
    /// Write this packet to the tunnel.
    Write(Vec<u8>),
    /// Send this through the socket.
    Send(Vec<u8>),
    /// Stop.
    End,
}

/// An action by what it holds.
pub enum FlowActionView {
    Open { raw: bool },
    Wait,
    Write(Seq<u8>),
    Send(Seq<u8>),
    End,
}

impl View for FlowAction {
    type V = FlowActionView;

    open spec fn view(&self) -> FlowActionView {
        match self {
            FlowAction::Open { raw } => FlowActionView::Open { raw: *raw },
            FlowAction::Wait => FlowActionView::Wait,
            FlowAction::Write(b) => FlowActionView::Write(b@),
            FlowAction::Send(b) => FlowActionView::Send(b@),
            FlowAction::End => FlowActionView::End,
        }
    }
}

/// What a new flow does first: where the system lets anyone send echo requests
/// through datagram sockets, it tries one of these.
pub fn flow_start(datagrams: bool) -> (r: (FlowStage, FlowAction))
    ensures
        r.0 == (if datagrams {
            FlowStage::OpenDatagram
        } else {
            FlowStage::OpenRaw
        }),
        r.1@ == (FlowActionView::Open { raw: !datagrams }),
{
    if datagrams {
        (FlowStage::OpenDatagram, FlowAction::Open { raw: false })
    } else {
        (FlowStage::OpenRaw, FlowAction::Open { raw: true })
    }
}

/// Where a flow stands after an event, and what it does then. The address of
/// the socket matters for raw sockets only. `template` is the packet that
/// started the flow.
pub open spec fn flow_next(
    stage: FlowStage,
    event: FlowEvent,
    template: Seq<u8>,
    key: FlowKey,
) -> (FlowStage, FlowActionView) {
    match (stage, event) {
        (FlowStage::OpenDatagram, FlowEvent::Opened(_)) => (
            FlowStage::Running { raw: false, local: None },
            FlowActionView::Wait,
        ),
        (FlowStage::OpenDatagram, FlowEvent::Failed) => (
            FlowStage::OpenRaw,
            FlowActionView::Open { raw: true },
        ),
        (FlowStage::OpenRaw, FlowEvent::Opened(local)) => (
            FlowStage::Running { raw: true, local },
            FlowActionView::Wait,
        ),
        (FlowStage::Running { raw, local }, FlowEvent::Received(data)) => (
            stage,
            if data@.len() == 0 {
                FlowActionView::Wait
            } else {
                match echo::upstream_reply(template, key, data@, raw, key.dst is V6) {
                    Some(packet) => FlowActionView::Write(packet),
                    None => FlowActionView::Wait,
                }
            },
        ),
        (FlowStage::Running { raw, local }, FlowEvent::Request(data)) => (
            stage,
            FlowActionView::Send(echo::outgoing(data@, key.dst is V6, raw, local, key.dst)),
        ),
        _ => (FlowStage::Ended, FlowActionView::End),
    }
}

/// Moves a flow on.
pub fn flow_step(stage: FlowStage, event: FlowEvent, template: &[u8], key: FlowKey) -> (r: (
    FlowStage,
    FlowAction,
))
    requires
        event matches FlowEvent::Received(data) ==> data@.len() <= usize::MAX - 64,
        stage is Running && !stage->raw ==> (event matches FlowEvent::Received(data)
            ==> data@.len() == 0 || data@.len() >= (if key.dst is V6 {
            2int
        } else {
            4int
        })),
    ensures
        (r.0, r.1@) == flow_next(stage, event, template@, key),
{
    match (stage, event) {
        (FlowStage::OpenDatagram, FlowEvent::Opened(_)) => (
            FlowStage::Running { raw: false, local: None },
            FlowAction::Wait,
        ),
        (FlowStage::OpenDatagram, FlowEvent::Failed) => (
            FlowStage::OpenRaw,
            FlowAction::Open { raw: true },
        ),
        (FlowStage::OpenRaw, FlowEvent::Opened(local)) => (
            FlowStage::Running { raw: true, local },
            FlowAction::Wait,
        ),
        (FlowStage::Running { raw, local: _ }, FlowEvent::Received(data)) => {
            if data.len() == 0 {
                return (stage, FlowAction::Wait);
            }
            let v6: bool = key.dst.is_ipv6();
            match reply_from_upstream(template, key, data.as_slice(), raw, v6) {
                Some(packet) => (stage, FlowAction::Write(packet)),
                None => (stage, FlowAction::Wait),
            }
        },
        (FlowStage::Running { raw, local }, FlowEvent::Request(data)) => {
            let v6: bool = key.dst.is_ipv6();
            (
                stage,
                FlowAction::Send(
                    prepare_send_payload(data.as_slice(), v6, raw, local, key.dst),
                ),
            )
        },
        _ => (FlowStage::Ended, FlowAction::End),
    }
}

/// A flow that cannot open either socket ends, and an ended flow stays so.
pub proof fn law_flow_ends(stage: FlowStage, event: FlowEvent, template: Seq<u8>, key: FlowKey)
    ensures
        ({
            let after_datagram = flow_next(
                FlowStage::OpenDatagram,
                FlowEvent::Failed,
                template,
                key,
            ).0;
            flow_next(after_datagram, FlowEvent::Failed, template, key).0 == FlowStage::Ended
        }),
        flow_next(FlowStage::Ended, event, template, key) == (
            FlowStage::Ended,
            FlowActionView::End,
        ),
        event is Closed ==> flow_next(stage, event, template, key).0 == FlowStage::Ended,
{
}

} // verus!
