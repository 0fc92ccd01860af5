//! DNS over TCP: messages with their lengths in front, query by query.
use vstd::prelude::*;

use crate::wire;
use crate::wire::{get_be16, set_be16, sub_vec, zero_vec};

verus! {

/// A message with its length in front, of which there is room for 16 bits.
pub open spec fn tcp_frame(message: Seq<u8>) -> Seq<u8> {
    wire::put16(wire::zeros(2), 0, message.len() as int % 65536) + message
}

/// Puts the length of a message in front of it.
pub fn frame_message(message: &[u8]) -> (frame: Vec<u8>)
    ensures
        frame@ == tcp_frame(message@),
{
    let mut frame: Vec<u8> = zero_vec(2);
    set_be16(frame.as_mut_slice(), 0, (message.len() % 65536) as u16);
    let mut rest: Vec<u8> = sub_vec(message, 0, message.len());
    assert(rest@ =~= message@);
    frame.append(&mut rest);
    frame
}

/// Where a connection with queries stands.
#[derive(Clone, Copy, Debug, PartialEq, Eq, Structural)]
pub enum DnsStage {
    /// The length of the next query comes.
    Length,
    /// A query of this length comes.
    Message(usize),
    /// The answer to a query comes.
    Answer,
    Closed,
}

/// What happened on a connection.
pub enum DnsEvent {
    /// The bytes that were asked for.
    Bytes(Vec<u8>),
    /// The answer to the query.
    Reply(Vec<u8>),
    /// Reading, writing or asking failed.
    Failed,
}

/// What to do on a connection.
pub enum DnsAction {
    /// Read exactly this many bytes.
    Read(usize),
    /// Ask this.
    Query(Vec<u8>),
    /// Write this, and read the length of the next query.
    Send(Vec<u8>),
    Close,
}

/// What is done next, and where the connection stands then: a length of zero,
/// a failure, and a query without a resolver close it.
pub open spec fn dns_next(stage: DnsStage, event: DnsEvent, resolver: bool) -> (
    DnsStage,
    DnsActionView,
) {
    match (stage, event) {
        (DnsStage::Length, DnsEvent::Bytes(b)) => if b@.len() == 2 && wire::be16(b@, 0) > 0 {
            (
                DnsStage::Message(wire::be16(b@, 0) as usize),
                DnsActionView::Read(wire::be16(b@, 0)),
            )
        } else {
            (DnsStage::Closed, DnsActionView::Close)
        },
        (DnsStage::Message(n), DnsEvent::Bytes(b)) => if b@.len() == n && resolver {
            (DnsStage::Answer, DnsActionView::Query(b@))
        } else {
            (DnsStage::Closed, DnsActionView::Close)
        },
        (DnsStage::Answer, DnsEvent::Reply(b)) => (
            DnsStage::Length,
            DnsActionView::Send(tcp_frame(b@)),
        ),
        _ => (DnsStage::Closed, DnsActionView::Close),
    }
}

/// An action by what it holds.
pub enum DnsActionView {
    Read(int),
    Query(Seq<u8>),
    Send(Seq<u8>),
    Close,
}

impl DnsAction {
    pub open spec fn view(&self) -> DnsActionView {
        match self {
            DnsAction::Read(n) => DnsActionView::Read(*n as int),
            DnsAction::Query(b) => DnsActionView::Query(b@),
            DnsAction::Send(b) => DnsActionView::Send(b@),
            DnsAction::Close => DnsActionView::Close,
        }
    }
}

/// What a new connection does first.
pub fn dns_start() -> (r: (DnsStage, DnsAction))
    ensures
        r.0 == DnsStage::Length,
        r.1@ == DnsActionView::Read(2),
{
    (DnsStage::Length, DnsAction::Read(2))
}

/// Moves a connection on.
pub fn dns_step(stage: DnsStage, event: DnsEvent, resolver: bool) -> (r: (DnsStage, DnsAction))
    ensures
        (r.0, r.1@) == dns_next(stage, event, resolver),
{
    match (stage, event) {
        (DnsStage::Length, DnsEvent::Bytes(b)) => {
            if b.len() != 2 {
                return (DnsStage::Closed, DnsAction::Close);
            }
            let n: usize = get_be16(b.as_slice(), 0) as usize;
            if n == 0 {
                (DnsStage::Closed, DnsAction::Close)
            } else {
                (DnsStage::Message(n), DnsAction::Read(n))
            }
        },
        (DnsStage::Message(n), DnsEvent::Bytes(b)) => {
            if b.len() == n && resolver {
                (DnsStage::Answer, DnsAction::Query(b))
            } else {
                (DnsStage::Closed, DnsAction::Close)
            }
        },
        (DnsStage::Answer, DnsEvent::Reply(b)) => (
            DnsStage::Length,
            DnsAction::Send(frame_message(b.as_slice())),
        ),
        _ => (DnsStage::Closed, DnsAction::Close),
    }
}

/// A framed message of at most 65535 bytes reads back as itself: its first two
/// bytes are taken for its length, and what follows for the query.
pub proof fn law_frame_read_back(message: Seq<u8>, head: Vec<u8>, body: Vec<u8>)
    requires
        0 < message.len() <= 65535,
        head@ == tcp_frame(message).subrange(0, 2),
        body@ == tcp_frame(message).subrange(2, tcp_frame(message).len() as int),
    ensures
        dns_next(DnsStage::Length, DnsEvent::Bytes(head), true) == (
            DnsStage::Message(message.len() as usize),
            DnsActionView::Read(message.len() as int),
        ),
        dns_next(
            DnsStage::Message(message.len() as usize),
            DnsEvent::Bytes(body),
            true,
        ) == (DnsStage::Answer, DnsActionView::Query(message)),
{
    assert(body@ =~= message);
    assert(head@ =~= wire::put16(wire::zeros(2), 0, message.len() as int));
    wire::lemma_put16(wire::zeros(2), 0, message.len() as int);
}

} // verus!
