//! Submessages: the units a datagram carries between writer and reader.

use vstd::prelude::*;
use crate::types::{CacheChange, CacheChangeView, Guid, SeqNum, copy_bytes};

verus! {

/// The one protocol this crate speaks.
#[derive(Clone, Copy, Debug, PartialEq, Eq, Structural)]
pub enum ProtocolId {
    Rtps,
}

/// What stands at the start of every datagram.
#[derive(Clone, Copy, Debug, PartialEq, Eq, Structural)]
pub struct Header {
    pub protocol: ProtocolId,
    pub version: u16,
    pub vendor_id: u16,
    pub guid_prefix: u64,
}

/// The kinds of submessage.
#[derive(Clone, Copy, Debug, PartialEq, Eq, Structural)]
pub enum SubmessageKind {
    Data,
    DataFrag,
    Gap,
    Heartbeat,
    AckNack,
    HeartbeatFrag,
    NackFrag,
    Pad,
    InfoTimestamp,
    InfoReply,
    InfoDestination,
    InfoSource,
}

/// What stands at the start of every submessage: its kind, its flag bits and
/// the number of payload octets that follow.
#[derive(Clone, Copy, Debug, PartialEq, Eq, Structural)]
pub struct SubmessageHeader {
    pub submessage_id: SubmessageKind,
    pub flags: u8,
    pub length: u16,
}

/// The payload of a submessage. The kinds whose payload the endpoints do not
/// interpret carry it as bytes.
#[derive(Clone, Debug, PartialEq, Eq)]
pub enum SubmessageElement {
    Data(CacheChange),
    DataFrag(Vec<u8>),
    /// The writer will never send the changes `first..=last`.
    Gap { writer_guid: Guid, first: SeqNum, last: SeqNum },
    /// The writer has the changes `first..=last` available.
    Heartbeat { writer_guid: Guid, first: SeqNum, last: SeqNum, count: u32 },
    /// The reader needs nothing below `acked_below` any more and asks for
    /// the changes in `missing`.
    AckNack { reader_guid: Guid, writer_guid: Guid, acked_below: SeqNum, missing: Vec<SeqNum>, count: u32 },
    HeartbeatFrag(Vec<u8>),
    NackFrag(Vec<u8>),
    Pad(Vec<u8>),
    InfoTimestamp(Vec<u8>),
    InfoReply(Vec<u8>),
    InfoDestination(Vec<u8>),
    InfoSource(Vec<u8>),
}

/// Mathematical value of a [`SubmessageElement`].
pub enum ElementView {
    Data(CacheChangeView),
    DataFrag(Seq<u8>),
    Gap { writer_guid: Guid, first: SeqNum, last: SeqNum },
    Heartbeat { writer_guid: Guid, first: SeqNum, last: SeqNum, count: u32 },
    AckNack { reader_guid: Guid, writer_guid: Guid, acked_below: SeqNum, missing: Seq<SeqNum>, count: u32 },
    HeartbeatFrag(Seq<u8>),
    NackFrag(Seq<u8>),
    Pad(Seq<u8>),
    InfoTimestamp(Seq<u8>),
    InfoReply(Seq<u8>),
    InfoDestination(Seq<u8>),
    InfoSource(Seq<u8>),
}

impl View for SubmessageElement {
    type V = ElementView;

    open spec fn view(&self) -> ElementView {
        match *self {
            SubmessageElement::Data(c) => ElementView::Data(c@),
            SubmessageElement::DataFrag(b) => ElementView::DataFrag(b@),
            SubmessageElement::Gap { writer_guid, first, last } => ElementView::Gap {
                writer_guid,
                first,
                last,
            },
            SubmessageElement::Heartbeat { writer_guid, first, last, count } => ElementView::Heartbeat {
                writer_guid,
                first,
                last,
                count,
            },
            SubmessageElement::AckNack {
                reader_guid,
                writer_guid,
                acked_below,
                missing,
                count,
            } => ElementView::AckNack {
                reader_guid,
                writer_guid,
                acked_below,
                missing: missing@,
                count,
            },
            SubmessageElement::HeartbeatFrag(b) => ElementView::HeartbeatFrag(b@),
            SubmessageElement::NackFrag(b) => ElementView::NackFrag(b@),
            SubmessageElement::Pad(b) => ElementView::Pad(b@),
            SubmessageElement::InfoTimestamp(b) => ElementView::InfoTimestamp(b@),
            SubmessageElement::InfoReply(b) => ElementView::InfoReply(b@),
            SubmessageElement::InfoDestination(b) => ElementView::InfoDestination(b@),
            SubmessageElement::InfoSource(b) => ElementView::InfoSource(b@),
        }
    }
}

impl ElementView {
    /// The kind this payload belongs to.
    pub open spec fn kind(self) -> SubmessageKind {
        match self {
            ElementView::Data(_) => SubmessageKind::Data,
            ElementView::DataFrag(_) => SubmessageKind::DataFrag,
            ElementView::Gap { .. } => SubmessageKind::Gap,
            ElementView::Heartbeat { .. } => SubmessageKind::Heartbeat,
            ElementView::AckNack { .. } => SubmessageKind::AckNack,
            ElementView::HeartbeatFrag(_) => SubmessageKind::HeartbeatFrag,
            ElementView::NackFrag(_) => SubmessageKind::NackFrag,
            ElementView::Pad(_) => SubmessageKind::Pad,
            ElementView::InfoTimestamp(_) => SubmessageKind::InfoTimestamp,
            ElementView::InfoReply(_) => SubmessageKind::InfoReply,
            ElementView::InfoDestination(_) => SubmessageKind::InfoDestination,
            ElementView::InfoSource(_) => SubmessageKind::InfoSource,
        }
    }
}

/// Builds the uninterpreted payload of kind `kind` from its bytes; `None` for
/// the four kinds whose payload has fields.
pub open spec fn spec_uninterpreted(kind: SubmessageKind, bytes: Seq<u8>) -> Option<ElementView> {
    match kind {
        SubmessageKind::DataFrag => Some(ElementView::DataFrag(bytes)),
        SubmessageKind::HeartbeatFrag => Some(ElementView::HeartbeatFrag(bytes)),
        SubmessageKind::NackFrag => Some(ElementView::NackFrag(bytes)),
        SubmessageKind::Pad => Some(ElementView::Pad(bytes)),
        SubmessageKind::InfoTimestamp => Some(ElementView::InfoTimestamp(bytes)),
        SubmessageKind::InfoReply => Some(ElementView::InfoReply(bytes)),
        SubmessageKind::InfoDestination => Some(ElementView::InfoDestination(bytes)),
        SubmessageKind::InfoSource => Some(ElementView::InfoSource(bytes)),
        _ => None,
    }
}

/// A fresh vector holding the sequence numbers of `numbers`.
pub fn copy_numbers(numbers: &Vec<SeqNum>) -> (out: Vec<SeqNum>)
    ensures
        out@ == numbers@,
{
    let mut out: Vec<SeqNum> = Vec::with_capacity(numbers.len());
    let mut i: usize = 0;
    while i < numbers.len()
        invariant
            i <= numbers.len(),
            out@ == numbers@.take(i as int),
        decreases numbers.len() - i,
    {
        out.push(numbers[i]);
        i += 1;
        assert(numbers@.take(i as int) == numbers@.take(i as int - 1).push(numbers@[i as int - 1]));
    }
    assert(numbers@.take(i as int) == numbers@);
    out
}

impl SubmessageElement {
    /// The kind this payload belongs to.
    pub fn kind(&self) -> (kind: SubmessageKind)
        ensures
            kind == self@.kind(),
    {
        match self {
            SubmessageElement::Data(_) => SubmessageKind::Data,
            SubmessageElement::DataFrag(_) => SubmessageKind::DataFrag,
            SubmessageElement::Gap { .. } => SubmessageKind::Gap,
            SubmessageElement::Heartbeat { .. } => SubmessageKind::Heartbeat,
            SubmessageElement::AckNack { .. } => SubmessageKind::AckNack,
            SubmessageElement::HeartbeatFrag(_) => SubmessageKind::HeartbeatFrag,
            SubmessageElement::NackFrag(_) => SubmessageKind::NackFrag,
            SubmessageElement::Pad(_) => SubmessageKind::Pad,
            SubmessageElement::InfoTimestamp(_) => SubmessageKind::InfoTimestamp,
            SubmessageElement::InfoReply(_) => SubmessageKind::InfoReply,
            SubmessageElement::InfoDestination(_) => SubmessageKind::InfoDestination,
            SubmessageElement::InfoSource(_) => SubmessageKind::InfoSource,
        }
    }

    /// The uninterpreted payload of kind `kind` that holds `bytes`; `None`
    /// for the four kinds whose payload has fields.
    pub fn uninterpreted(kind: SubmessageKind, bytes: Vec<u8>) -> (element: Option<SubmessageElement>)
        ensures
            match element {
                Some(e) => spec_uninterpreted(kind, bytes@) == Some(e@),
                None => spec_uninterpreted(kind, bytes@) is None,
            },
    {
        match kind {
            SubmessageKind::DataFrag => Some(SubmessageElement::DataFrag(bytes)),
            SubmessageKind::HeartbeatFrag => Some(SubmessageElement::HeartbeatFrag(bytes)),
            SubmessageKind::NackFrag => Some(SubmessageElement::NackFrag(bytes)),
            SubmessageKind::Pad => Some(SubmessageElement::Pad(bytes)),
            SubmessageKind::InfoTimestamp => Some(SubmessageElement::InfoTimestamp(bytes)),
            SubmessageKind::InfoReply => Some(SubmessageElement::InfoReply(bytes)),
            SubmessageKind::InfoDestination => Some(SubmessageElement::InfoDestination(bytes)),
            SubmessageKind::InfoSource => Some(SubmessageElement::InfoSource(bytes)),
            _ => None,
        }
    }

    /// An independent copy with the same value.
    pub fn duplicate(&self) -> (copy: SubmessageElement)
        ensures
            copy@ == self@,
    {
        match self {
            SubmessageElement::Data(c) => SubmessageElement::Data(c.duplicate()),
            SubmessageElement::DataFrag(b) => SubmessageElement::DataFrag(copy_bytes(b)),
            SubmessageElement::Gap { writer_guid, first, last } => SubmessageElement::Gap {
                writer_guid: *writer_guid,
                first: *first,
                last: *last,
            },
            SubmessageElement::Heartbeat {
                writer_guid,
                first,
                last,
                count,
            } => SubmessageElement::Heartbeat {
                writer_guid: *writer_guid,
                first: *first,
                last: *last,
                count: *count,
            },
            SubmessageElement::AckNack {
                reader_guid,
                writer_guid,
                acked_below,
                missing,
                count,
            } => SubmessageElement::AckNack {
                reader_guid: *reader_guid,
                writer_guid: *writer_guid,
                acked_below: *acked_below,
                missing: copy_numbers(missing),
                count: *count,
            },
            SubmessageElement::HeartbeatFrag(b) => SubmessageElement::HeartbeatFrag(copy_bytes(b)),
            SubmessageElement::NackFrag(b) => SubmessageElement::NackFrag(copy_bytes(b)),
            SubmessageElement::Pad(b) => SubmessageElement::Pad(copy_bytes(b)),
            SubmessageElement::InfoTimestamp(b) => SubmessageElement::InfoTimestamp(copy_bytes(b)),
            SubmessageElement::InfoReply(b) => SubmessageElement::InfoReply(copy_bytes(b)),
            SubmessageElement::InfoDestination(b) => SubmessageElement::InfoDestination(
                copy_bytes(b),
            ),
            SubmessageElement::InfoSource(b) => SubmessageElement::InfoSource(copy_bytes(b)),
        }
    }
}

/// One submessage: flag bits and a payload.
#[derive(Clone, Debug, PartialEq, Eq)]
pub struct Submessage {
    pub flags: u8,
    pub element: SubmessageElement,
}

/// Mathematical value of a [`Submessage`].
pub struct SubmessageView {
    pub flags: u8,
    pub element: ElementView,
}

impl View for Submessage {
    type V = SubmessageView;

    open spec fn view(&self) -> SubmessageView {
        SubmessageView { flags: self.flags, element: self.element@ }
    }
}

/// Views of a sequence of submessages, element by element.
pub open spec fn submessage_views(s: Seq<Submessage>) -> Seq<SubmessageView> {
    s.map_values(|m: Submessage| m@)
}

impl Submessage {
    /// A submessage with no flag set.
    pub fn new(element: SubmessageElement) -> (m: Submessage)
        ensures
            m@ == (SubmessageView { flags: 0, element: element@ }),
    {
        Submessage { flags: 0, element }
    }

    /// The kind of this submessage.
    pub fn kind(&self) -> (kind: SubmessageKind)
        ensures
            kind == self@.element.kind(),
    {
        self.element.kind()
    }

    /// An independent copy with the same value.
    pub fn duplicate(&self) -> (copy: Submessage)
        ensures
            copy@ == self@,
    {
        Submessage { flags: self.flags, element: self.element.duplicate() }
    }
}

/// Where a submessage is to be sent.
#[derive(Clone, Copy, Debug, PartialEq, Eq, Structural)]
pub enum Destination {
    /// The multicast group every endpoint listens on.
    Group,
    /// The unicast address of one endpoint.
    Endpoint(Guid),
}

/// A submessage on its way out, with its destination.
#[derive(Clone, Debug, PartialEq, Eq)]
pub struct Outbound {
    pub to: Destination,
    pub message: Submessage,
}

/// Mathematical value of an [`Outbound`].
pub struct OutboundView {
    pub to: Destination,
    pub message: SubmessageView,
}

impl View for Outbound {
    type V = OutboundView;

    open spec fn view(&self) -> OutboundView {
        OutboundView { to: self.to, message: self.message@ }
    }
}

/// Views of a sequence of outbound submessages, element by element.
pub open spec fn outbound_views(s: Seq<Outbound>) -> Seq<OutboundView> {
    s.map_values(|o: Outbound| o@)
}

/// The Data submessage that carries change `c`.
pub open spec fn spec_data_message(c: CacheChangeView) -> SubmessageView {
    SubmessageView { flags: 0, element: ElementView::Data(c) }
}

/// The Gap submessage that says change `n` of `guid` will never come.
pub open spec fn spec_gap_message(guid: Guid, n: SeqNum) -> SubmessageView {
    SubmessageView { flags: 0, element: ElementView::Gap { writer_guid: guid, first: n, last: n } }
}

} // verus!
