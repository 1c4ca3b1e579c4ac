//! The wire form of a submessage: one octet of kind, one of flags, two of
//! payload length, then the payload. Integers are little-endian.

use vstd::prelude::*;
use vstd::bytes::{
    lemma_auto_spec_u16_to_from_le_bytes, lemma_auto_spec_u32_to_from_le_bytes,
    lemma_auto_spec_u64_to_from_le_bytes, spec_u16_from_le_bytes, spec_u16_to_le_bytes,
    spec_u32_from_le_bytes, spec_u32_to_le_bytes, spec_u64_from_le_bytes, spec_u64_to_le_bytes,
    u16_from_le_bytes, u16_to_le_bytes, u32_from_le_bytes, u32_to_le_bytes, u64_from_le_bytes,
    u64_to_le_bytes,
};
use vstd::slice::{slice_subrange, slice_to_vec};
use crate::message::{
    ElementView, Submessage, SubmessageElement, SubmessageHeader, SubmessageKind, SubmessageView,
    spec_uninterpreted,
};
use crate::types::{CacheChange, CacheChangeView, ChangeKind, Guid, SeqNum};

verus! {

/// Octets of a submessage header.
pub const SUBMESSAGE_HEADER_LEN: usize = 4;

/// Largest payload the two length octets can announce.
pub const MAX_PAYLOAD_LEN: usize = 0xffff;

/// Octets of a Data payload before the sample bytes.
pub const DATA_FIXED_LEN: usize = 25;

/// Octets of a Gap payload.
pub const GAP_LEN: usize = 24;

/// Octets of a Heartbeat payload.
pub const HEARTBEAT_LEN: usize = 28;

/// Octets of an AckNack payload before the missing sequence numbers.
pub const ACKNACK_FIXED_LEN: usize = 28;

/// Why a buffer could not be decoded.
#[derive(Clone, Copy, Debug, PartialEq, Eq, Structural)]
pub enum DecodeError {
    /// The buffer ends before the submessage does: more bytes are needed.
    Truncated,
    /// The payload is complete but does not have the form of its kind.
    Malformed,
    /// The kind octet names no submessage kind.
    UnknownKind,
}

/// The octet that announces a submessage kind.
pub open spec fn spec_kind_tag(kind: SubmessageKind) -> u8 {
    match kind {
        SubmessageKind::Pad => 0x01,
        SubmessageKind::AckNack => 0x06,
        SubmessageKind::Heartbeat => 0x07,
        SubmessageKind::Gap => 0x08,
        SubmessageKind::InfoTimestamp => 0x09,
        SubmessageKind::InfoSource => 0x0c,
        SubmessageKind::InfoDestination => 0x0e,
        SubmessageKind::InfoReply => 0x0f,
        SubmessageKind::NackFrag => 0x12,
        SubmessageKind::HeartbeatFrag => 0x13,
        SubmessageKind::Data => 0x15,
        SubmessageKind::DataFrag => 0x16,
    }
}

/// The submessage kind an octet announces, if any.
pub open spec fn spec_tag_kind(tag: u8) -> Option<SubmessageKind> {
    if tag == 0x01 {
        Some(SubmessageKind::Pad)
    } else if tag == 0x06 {
        Some(SubmessageKind::AckNack)
    } else if tag == 0x07 {
        Some(SubmessageKind::Heartbeat)
    } else if tag == 0x08 {
        Some(SubmessageKind::Gap)
    } else if tag == 0x09 {
        Some(SubmessageKind::InfoTimestamp)
    } else if tag == 0x0c {
        Some(SubmessageKind::InfoSource)
    } else if tag == 0x0e {
        Some(SubmessageKind::InfoDestination)
    } else if tag == 0x0f {
        Some(SubmessageKind::InfoReply)
    } else if tag == 0x12 {
        Some(SubmessageKind::NackFrag)
    } else if tag == 0x13 {
        Some(SubmessageKind::HeartbeatFrag)
    } else if tag == 0x15 {
        Some(SubmessageKind::Data)
    } else if tag == 0x16 {
        Some(SubmessageKind::DataFrag)
    } else {
        None
    }
}

/// The octet that stands for a change kind in a Data payload.
pub open spec fn spec_change_kind_tag(kind: ChangeKind) -> u8 {
    match kind {
        ChangeKind::Alive => 0,
        ChangeKind::NotAliveDisposed => 1,
        ChangeKind::NotAliveUnregistered => 2,
    }
}

/// The change kind an octet stands for, if any.
pub open spec fn spec_tag_change_kind(tag: u8) -> Option<ChangeKind> {
    if tag == 0 {
        Some(ChangeKind::Alive)
    } else if tag == 1 {
        Some(ChangeKind::NotAliveDisposed)
    } else if tag == 2 {
        Some(ChangeKind::NotAliveUnregistered)
    } else {
        None
    }
}

/// Sequence numbers laid out one after the other, eight octets each.
pub open spec fn spec_sequence_numbers(s: Seq<SeqNum>) -> Seq<u8>
    decreases s.len(),
{
    if s.len() == 0 {
        Seq::<u8>::empty()
    } else {
        spec_sequence_numbers(s.drop_last()) + spec_u64_to_le_bytes(s.last())
    }
}

/// The sequence numbers that `b` lays out, eight octets each; octets left
/// over at the front are ignored.
pub open spec fn spec_parse_sequence_numbers(b: Seq<u8>) -> Seq<SeqNum>
    decreases b.len(),
{
    if b.len() < 8 {
        Seq::<SeqNum>::empty()
    } else {
        spec_parse_sequence_numbers(b.take(b.len() - 8)).push(
            spec_u64_from_le_bytes(b.skip(b.len() - 8)),
        )
    }
}

/// The eight octets of `p` from `at` on, read as an integer.
pub open spec fn spec_u64_at(p: Seq<u8>, at: int) -> u64 {
    spec_u64_from_le_bytes(p.subrange(at, at + 8))
}

/// The four octets of `p` from `at` on, read as an integer.
pub open spec fn spec_u32_at(p: Seq<u8>, at: int) -> u32 {
    spec_u32_from_le_bytes(p.subrange(at, at + 4))
}

/// The payload octets of an element.
pub open spec fn spec_payload(e: ElementView) -> Seq<u8> {
    match e {
        ElementView::Data(c) => seq![spec_change_kind_tag(c.kind)] + spec_u64_to_le_bytes(
            c.writer_guid.0,
        ) + spec_u64_to_le_bytes(c.sequence_number) + spec_u64_to_le_bytes(c.instance_handle)
            + c.data,
        ElementView::Gap { writer_guid, first, last } => spec_u64_to_le_bytes(writer_guid.0)
            + spec_u64_to_le_bytes(first) + spec_u64_to_le_bytes(last),
        ElementView::Heartbeat { writer_guid, first, last, count } => spec_u64_to_le_bytes(
            writer_guid.0,
        ) + spec_u64_to_le_bytes(first) + spec_u64_to_le_bytes(last) + spec_u32_to_le_bytes(count),
        ElementView::AckNack {
            reader_guid,
            writer_guid,
            acked_below,
            missing,
            count,
        } => spec_u64_to_le_bytes(reader_guid.0) + spec_u64_to_le_bytes(writer_guid.0)
            + spec_u64_to_le_bytes(acked_below) + spec_u32_to_le_bytes(count)
            + spec_sequence_numbers(missing),
        ElementView::DataFrag(b) => b,
        ElementView::HeartbeatFrag(b) => b,
        ElementView::NackFrag(b) => b,
        ElementView::Pad(b) => b,
        ElementView::InfoTimestamp(b) => b,
        ElementView::InfoReply(b) => b,
        ElementView::InfoDestination(b) => b,
        ElementView::InfoSource(b) => b,
    }
}

/// The element of kind `kind` that the complete payload `p` stands for, if
/// `p` has the form of that kind.
pub open spec fn spec_parse_payload(kind: SubmessageKind, p: Seq<u8>) -> Option<ElementView> {
    match kind {
        SubmessageKind::Data => if p.len() >= 25 && spec_tag_change_kind(p[0]) is Some {
            Some(
                ElementView::Data(
                    CacheChangeView {
                        kind: spec_tag_change_kind(p[0]).unwrap(),
                        writer_guid: Guid(spec_u64_at(p, 1)),
                        sequence_number: spec_u64_at(p, 9),
                        instance_handle: spec_u64_at(p, 17),
                        data: p.skip(25),
                    },
                ),
            )
        } else {
            None
        },
        SubmessageKind::Gap => if p.len() == 24 {
            Some(
                ElementView::Gap {
                    writer_guid: Guid(spec_u64_at(p, 0)),
                    first: spec_u64_at(p, 8),
                    last: spec_u64_at(p, 16),
                },
            )
        } else {
            None
        },
        SubmessageKind::Heartbeat => if p.len() == 28 {
            Some(
                ElementView::Heartbeat {
                    writer_guid: Guid(spec_u64_at(p, 0)),
                    first: spec_u64_at(p, 8),
                    last: spec_u64_at(p, 16),
                    count: spec_u32_at(p, 24),
                },
            )
        } else {
            None
        },
        SubmessageKind::AckNack => if p.len() >= 28 && (p.len() - 28) % 8 == 0 {
            Some(
                ElementView::AckNack {
                    reader_guid: Guid(spec_u64_at(p, 0)),
                    writer_guid: Guid(spec_u64_at(p, 8)),
                    acked_below: spec_u64_at(p, 16),
                    missing: spec_parse_sequence_numbers(p.skip(28)),
                    count: spec_u32_at(p, 24),
                },
            )
        } else {
            None
        },
        _ => spec_uninterpreted(kind, p),
    }
}

/// Whether the payload of `m` fits the two length octets. Every submessage
/// that it holds of has a wire form.
pub open spec fn encodable(m: SubmessageView) -> bool {
    spec_payload(m.element).len() <= 0xffff
}

/// The wire form of a submessage.
pub open spec fn spec_encode(m: SubmessageView) -> Seq<u8> {
    seq![spec_kind_tag(m.element.kind()), m.flags] + spec_u16_to_le_bytes(
        spec_payload(m.element).len() as u16,
    ) + spec_payload(m.element)
}

/// The header that the first four octets of `b` stand for.
pub open spec fn spec_decode_header(b: Seq<u8>) -> Result<SubmessageHeader, DecodeError> {
    if b.len() < 4 {
        Err(DecodeError::Truncated)
    } else {
        match spec_tag_kind(b[0]) {
            None => Err(DecodeError::UnknownKind),
            Some(kind) => Ok(
                SubmessageHeader {
                    submessage_id: kind,
                    flags: b[1],
                    length: spec_u16_from_le_bytes(b.subrange(2, 4)),
                },
            ),
        }
    }
}

/// The submessage at the front of `b` and the number of octets it takes,
/// or why there is none.
pub open spec fn spec_decode(b: Seq<u8>) -> Result<(SubmessageView, int), DecodeError> {
    match spec_decode_header(b) {
        Err(e) => Err(e),
        Ok(h) => if b.len() < 4 + h.length {
            Err(DecodeError::Truncated)
        } else {
            match spec_parse_payload(h.submessage_id, b.subrange(4, 4 + h.length)) {
                None => Err(DecodeError::Malformed),
                Some(element) => Ok((SubmessageView { flags: h.flags, element }, 4 + h.length)),
            }
        },
    }
}

/// Laid-out sequence numbers take eight octets each.
pub proof fn lemma_sequence_numbers_len(s: Seq<SeqNum>)
    ensures
        spec_sequence_numbers(s).len() == 8 * s.len(),
    decreases s.len(),
{
    lemma_auto_spec_u64_to_from_le_bytes();
    if s.len() > 0 {
        lemma_sequence_numbers_len(s.drop_last());
    }
}

/// Parsing laid-out sequence numbers gives them back.
pub proof fn lemma_parse_sequence_numbers(s: Seq<SeqNum>)
    ensures
        spec_parse_sequence_numbers(spec_sequence_numbers(s)) == s,
    decreases s.len(),
{
    lemma_auto_spec_u64_to_from_le_bytes();
    lemma_sequence_numbers_len(s);
    if s.len() > 0 {
        let front = spec_sequence_numbers(s.drop_last());
        let back = spec_u64_to_le_bytes(s.last());
        let b = spec_sequence_numbers(s);
        lemma_sequence_numbers_len(s.drop_last());
        lemma_parse_sequence_numbers(s.drop_last());
        assert(b.take(b.len() - 8) =~= front);
        assert(b.skip(b.len() - 8) =~= back);
        assert(spec_parse_sequence_numbers(b) =~= s);
    } else {
        assert(spec_parse_sequence_numbers(spec_sequence_numbers(s)) =~= s);
    }
}

/// Laying out parsed sequence numbers gives the octets back, where they are
/// a whole number of sequence numbers.
pub proof fn lemma_sequence_numbers_of_parsed(b: Seq<u8>)
    requires
        b.len() % 8 == 0,
    ensures
        spec_sequence_numbers(spec_parse_sequence_numbers(b)) == b,
        spec_parse_sequence_numbers(b).len() * 8 == b.len(),
    decreases b.len(),
{
    lemma_auto_spec_u64_to_from_le_bytes();
    if b.len() >= 8 {
        let front = b.take(b.len() - 8);
        let back = b.skip(b.len() - 8);
        lemma_sequence_numbers_of_parsed(front);
        let s = spec_parse_sequence_numbers(b);
        assert(s.drop_last() =~= spec_parse_sequence_numbers(front));
        assert(spec_u64_to_le_bytes(spec_u64_from_le_bytes(back)) == back);
        assert(spec_sequence_numbers(s) =~= b);
    } else {
        assert(spec_sequence_numbers(spec_parse_sequence_numbers(b)) =~= b);
    }
}

/// The octet of each kind announces that kind and no other.
pub proof fn lemma_kind_tags(kind: SubmessageKind)
    ensures
        spec_tag_kind(spec_kind_tag(kind)) == Some(kind),
{
}

/// Number of payload octets of an element.
pub open spec fn spec_payload_len(e: ElementView) -> int {
    match e {
        ElementView::Data(c) => 25 + c.data.len() as int,
        ElementView::Gap { .. } => 24,
        ElementView::Heartbeat { .. } => 28,
        ElementView::AckNack { missing, .. } => 28 + 8 * (missing.len() as int),
        ElementView::DataFrag(b) => b.len() as int,
        ElementView::HeartbeatFrag(b) => b.len() as int,
        ElementView::NackFrag(b) => b.len() as int,
        ElementView::Pad(b) => b.len() as int,
        ElementView::InfoTimestamp(b) => b.len() as int,
        ElementView::InfoReply(b) => b.len() as int,
        ElementView::InfoDestination(b) => b.len() as int,
        ElementView::InfoSource(b) => b.len() as int,
    }
}

/// The payload of an element has the length its fields add up to.
pub proof fn lemma_payload_len(e: ElementView)
    ensures
        spec_payload(e).len() == spec_payload_len(e),
{
    lemma_auto_spec_u64_to_from_le_bytes();
    lemma_auto_spec_u32_to_from_le_bytes();
    match e {
        ElementView::AckNack { missing, .. } => {
            lemma_sequence_numbers_len(missing);
        },
        _ => {},
    }
}

/// Parsing the payload of an element under its own kind gives the element back.
pub proof fn lemma_parse_payload(e: ElementView)
    ensures
        spec_parse_payload(e.kind(), spec_payload(e)) == Some(e),
{
    lemma_auto_spec_u64_to_from_le_bytes();
    lemma_auto_spec_u32_to_from_le_bytes();
    lemma_payload_len(e);
    let p = spec_payload(e);
    match e {
        ElementView::Data(c) => {
            assert(p.subrange(1, 9) =~= spec_u64_to_le_bytes(c.writer_guid.0));
            assert(p.subrange(9, 17) =~= spec_u64_to_le_bytes(c.sequence_number));
            assert(p.subrange(17, 25) =~= spec_u64_to_le_bytes(c.instance_handle));
            assert(p.skip(25) =~= c.data);
            assert(p[0] == spec_change_kind_tag(c.kind));
        },
        ElementView::Gap { writer_guid, first, last } => {
            assert(p.subrange(0, 8) =~= spec_u64_to_le_bytes(writer_guid.0));
            assert(p.subrange(8, 16) =~= spec_u64_to_le_bytes(first));
            assert(p.subrange(16, 24) =~= spec_u64_to_le_bytes(last));
        },
        ElementView::Heartbeat { writer_guid, first, last, count } => {
            assert(p.subrange(0, 8) =~= spec_u64_to_le_bytes(writer_guid.0));
            assert(p.subrange(8, 16) =~= spec_u64_to_le_bytes(first));
            assert(p.subrange(16, 24) =~= spec_u64_to_le_bytes(last));
            assert(p.subrange(24, 28) =~= spec_u32_to_le_bytes(count));
        },
        ElementView::AckNack { reader_guid, writer_guid, acked_below, missing, count } => {
            lemma_sequence_numbers_len(missing);
            lemma_parse_sequence_numbers(missing);
            assert(p.subrange(0, 8) =~= spec_u64_to_le_bytes(reader_guid.0));
            assert(p.subrange(8, 16) =~= spec_u64_to_le_bytes(writer_guid.0));
            assert(p.subrange(16, 24) =~= spec_u64_to_le_bytes(acked_below));
            assert(p.subrange(24, 28) =~= spec_u32_to_le_bytes(count));
            assert(p.skip(28) =~= spec_sequence_numbers(missing));
        },
        _ => {},
    }
}

/// Decoding is the inverse of encoding: the wire form of an encodable
/// submessage, whatever octets follow it, decodes to that submessage and to
/// the length of its wire form.
pub proof fn lemma_decode_encode(m: SubmessageView, rest: Seq<u8>)
    requires
        encodable(m),
    ensures
        spec_decode(spec_encode(m) + rest) == Ok::<(SubmessageView, int), DecodeError>(
            (m, spec_encode(m).len() as int),
        ),
        spec_encode(m).len() == 4 + spec_payload(m.element).len(),
{
    lemma_auto_spec_u16_to_from_le_bytes();
    lemma_kind_tags(m.element.kind());
    lemma_parse_payload(m.element);
    let p = spec_payload(m.element);
    let len = p.len() as u16;
    let b = spec_encode(m) + rest;
    assert(b[0] == spec_kind_tag(m.element.kind()));
    assert(b[1] == m.flags);
    assert(b.subrange(2, 4) =~= spec_u16_to_le_bytes(len));
    assert(b.subrange(4, 4 + len) =~= p);
}

/// Encoding is the inverse of decoding: the octets a submessage was decoded
/// from are its wire form.
pub proof fn lemma_encode_decode(b: Seq<u8>)
    requires
        spec_decode(b) is Ok,
    ensures
        encodable(spec_decode(b).unwrap().0),
        spec_encode(spec_decode(b).unwrap().0) == b.take(spec_decode(b).unwrap().1),
{
    lemma_auto_spec_u16_to_from_le_bytes();
    lemma_auto_spec_u32_to_from_le_bytes();
    lemma_auto_spec_u64_to_from_le_bytes();
    let h = spec_decode_header(b).unwrap();
    let p = b.subrange(4, 4 + h.length);
    let m = spec_decode(b).unwrap().0;
    let e = m.element;
    assert(spec_kind_tag(h.submessage_id) == b[0]);
    assert(e.kind() == h.submessage_id);
    assert(spec_u16_to_le_bytes(spec_u16_from_le_bytes(b.subrange(2, 4))) == b.subrange(2, 4));
    assert(spec_payload(e) =~= p) by {
        match e {
            ElementView::Data(c) => {
                assert(spec_change_kind_tag(c.kind) == p[0]);
                assert(spec_u64_to_le_bytes(spec_u64_at(p, 1)) == p.subrange(1, 9));
                assert(spec_u64_to_le_bytes(spec_u64_at(p, 9)) == p.subrange(9, 17));
                assert(spec_u64_to_le_bytes(spec_u64_at(p, 17)) == p.subrange(17, 25));
            },
            ElementView::Gap { .. } => {
                assert(spec_u64_to_le_bytes(spec_u64_at(p, 0)) == p.subrange(0, 8));
                assert(spec_u64_to_le_bytes(spec_u64_at(p, 8)) == p.subrange(8, 16));
                assert(spec_u64_to_le_bytes(spec_u64_at(p, 16)) == p.subrange(16, 24));
            },
            ElementView::Heartbeat { .. } => {
                assert(spec_u64_to_le_bytes(spec_u64_at(p, 0)) == p.subrange(0, 8));
                assert(spec_u64_to_le_bytes(spec_u64_at(p, 8)) == p.subrange(8, 16));
                assert(spec_u64_to_le_bytes(spec_u64_at(p, 16)) == p.subrange(16, 24));
                assert(spec_u32_to_le_bytes(spec_u32_at(p, 24)) == p.subrange(24, 28));
            },
            ElementView::AckNack { .. } => {
                assert(spec_u64_to_le_bytes(spec_u64_at(p, 0)) == p.subrange(0, 8));
                assert(spec_u64_to_le_bytes(spec_u64_at(p, 8)) == p.subrange(8, 16));
                assert(spec_u64_to_le_bytes(spec_u64_at(p, 16)) == p.subrange(16, 24));
                assert(spec_u32_to_le_bytes(spec_u32_at(p, 24)) == p.subrange(24, 28));
                lemma_sequence_numbers_of_parsed(p.skip(28));
            },
            _ => {},
        }
    }
    assert(spec_encode(m) =~= b.take(4 + h.length));
}

/// The octet that announces `kind`.
pub fn kind_tag(kind: SubmessageKind) -> (tag: u8)
    ensures
        tag == spec_kind_tag(kind),
{
    match kind {
        SubmessageKind::Pad => 0x01,
        SubmessageKind::AckNack => 0x06,
        SubmessageKind::Heartbeat => 0x07,
        SubmessageKind::Gap => 0x08,
        SubmessageKind::InfoTimestamp => 0x09,
        SubmessageKind::InfoSource => 0x0c,
        SubmessageKind::InfoDestination => 0x0e,
        SubmessageKind::InfoReply => 0x0f,
        SubmessageKind::NackFrag => 0x12,
        SubmessageKind::HeartbeatFrag => 0x13,
        SubmessageKind::Data => 0x15,
        SubmessageKind::DataFrag => 0x16,
    }
}

/// The kind that `tag` announces, if any.
pub fn tag_kind(tag: u8) -> (kind: Option<SubmessageKind>)
    ensures
        kind == spec_tag_kind(tag),
{
    match tag {
        0x01 => Some(SubmessageKind::Pad),
        0x06 => Some(SubmessageKind::AckNack),
        0x07 => Some(SubmessageKind::Heartbeat),
        0x08 => Some(SubmessageKind::Gap),
        0x09 => Some(SubmessageKind::InfoTimestamp),
        0x0c => Some(SubmessageKind::InfoSource),
        0x0e => Some(SubmessageKind::InfoDestination),
        0x0f => Some(SubmessageKind::InfoReply),
        0x12 => Some(SubmessageKind::NackFrag),
        0x13 => Some(SubmessageKind::HeartbeatFrag),
        0x15 => Some(SubmessageKind::Data),
        0x16 => Some(SubmessageKind::DataFrag),
        _ => None,
    }
}

fn change_kind_tag(kind: ChangeKind) -> (tag: u8)
    ensures
        tag == spec_change_kind_tag(kind),
{
    match kind {
        ChangeKind::Alive => 0,
        ChangeKind::NotAliveDisposed => 1,
        ChangeKind::NotAliveUnregistered => 2,
    }
}

fn tag_change_kind(tag: u8) -> (kind: Option<ChangeKind>)
    ensures
        kind == spec_tag_change_kind(tag),
{
    match tag {
        0 => Some(ChangeKind::Alive),
        1 => Some(ChangeKind::NotAliveDisposed),
        2 => Some(ChangeKind::NotAliveUnregistered),
        _ => None,
    }
}

pub(crate) fn put_u16(out: &mut Vec<u8>, x: u16)
    ensures
        final(out)@ == old(out)@ + spec_u16_to_le_bytes(x),
{
    let mut bytes = u16_to_le_bytes(x);
    out.append(&mut bytes);
}

pub(crate) fn put_u32(out: &mut Vec<u8>, x: u32)
    ensures
        final(out)@ == old(out)@ + spec_u32_to_le_bytes(x),
{
    let mut bytes = u32_to_le_bytes(x);
    out.append(&mut bytes);
}

pub(crate) fn put_u64(out: &mut Vec<u8>, x: u64)
    ensures
        final(out)@ == old(out)@ + spec_u64_to_le_bytes(x),
{
    let mut bytes = u64_to_le_bytes(x);
    out.append(&mut bytes);
}

pub(crate) fn put_bytes(out: &mut Vec<u8>, bytes: &Vec<u8>)
    ensures
        final(out)@ == old(out)@ + bytes@,
{
    let mut i: usize = 0;
    while i < bytes.len()
        invariant
            i <= bytes.len(),
            out@ == old(out)@ + bytes@.take(i as int),
        decreases bytes.len() - i,
    {
        out.push(bytes[i]);
        i += 1;
        assert(bytes@.take(i as int) == bytes@.take(i as int - 1).push(bytes@[i as int - 1]));
        assert(out@ =~= old(out)@ + bytes@.take(i as int));
    }
    assert(bytes@.take(i as int) == bytes@);
}

pub(crate) fn read_u16(buf: &[u8], at: usize) -> (x: u16)
    requires
        at + 2 <= buf@.len(),
    ensures
        x == spec_u16_from_le_bytes(buf@.subrange(at as int, at + 2)),
{
    let len: usize = buf.len();
    assert(at + 2 <= len);
    u16_from_le_bytes(slice_subrange(buf, at, at + 2))
}

pub(crate) fn read_u32(buf: &[u8], at: usize) -> (x: u32)
    requires
        at + 4 <= buf@.len(),
    ensures
        x == spec_u32_at(buf@, at as int),
{
    let len: usize = buf.len();
    assert(at + 4 <= len);
    u32_from_le_bytes(slice_subrange(buf, at, at + 4))
}

pub(crate) fn read_u64(buf: &[u8], at: usize) -> (x: u64)
    requires
        at + 8 <= buf@.len(),
    ensures
        x == spec_u64_at(buf@, at as int),
{
    let len: usize = buf.len();
    assert(at + 8 <= len);
    u64_from_le_bytes(slice_subrange(buf, at, at + 8))
}

fn put_sequence_numbers(out: &mut Vec<u8>, numbers: &Vec<SeqNum>)
    ensures
        final(out)@ == old(out)@ + spec_sequence_numbers(numbers@),
{
    let mut i: usize = 0;
    assert(spec_sequence_numbers(numbers@.take(0)) =~= Seq::<u8>::empty());
    assert(out@ =~= old(out)@ + spec_sequence_numbers(numbers@.take(0)));
    while i < numbers.len()
        invariant
            i <= numbers.len(),
            out@ == old(out)@ + spec_sequence_numbers(numbers@.take(i as int)),
        decreases numbers.len() - i,
    {
        put_u64(out, numbers[i]);
        i += 1;
        proof {
            let now = numbers@.take(i as int);
            assert(now.drop_last() == numbers@.take(i as int - 1));
            assert(now.last() == numbers@[i as int - 1]);
            assert(out@ =~= old(out)@ + spec_sequence_numbers(now));
        }
    }
    assert(numbers@.take(i as int) == numbers@);
}

fn parse_sequence_numbers(b: &[u8]) -> (numbers: Vec<SeqNum>)
    requires
        b@.len() % 8 == 0,
    ensures
        numbers@ == spec_parse_sequence_numbers(b@),
{
    let mut numbers: Vec<SeqNum> = Vec::new();
    let mut i: usize = 0;
    assert(spec_parse_sequence_numbers(b@.take(0)) =~= Seq::<SeqNum>::empty());
    while i < b.len()
        invariant
            i <= b@.len(),
            i % 8 == 0,
            b@.len() % 8 == 0,
            numbers@ == spec_parse_sequence_numbers(b@.take(i as int)),
        decreases b@.len() - i,
    {
        let x: u64 = read_u64(b, i);
        numbers.push(x);
        proof {
            let now = b@.take(i + 8);
            assert(now.take(now.len() - 8) == b@.take(i as int));
            assert(now.skip(now.len() - 8) == b@.subrange(i as int, i + 8));
        }
        i += 8;
    }
    assert(b@.take(i as int) == b@);
    numbers
}

fn put_payload(out: &mut Vec<u8>, element: &SubmessageElement)
    ensures
        final(out)@ == old(out)@ + spec_payload(element@),
{
    match element {
        SubmessageElement::Data(c) => {
            out.push(change_kind_tag(c.kind));
            put_u64(out, c.writer_guid.0);
            put_u64(out, c.sequence_number);
            put_u64(out, c.instance_handle);
            put_bytes(out, &c.data);
        },
        SubmessageElement::Gap { writer_guid, first, last } => {
            put_u64(out, writer_guid.0);
            put_u64(out, *first);
            put_u64(out, *last);
        },
        SubmessageElement::Heartbeat { writer_guid, first, last, count } => {
            put_u64(out, writer_guid.0);
            put_u64(out, *first);
            put_u64(out, *last);
            put_u32(out, *count);
        },
        SubmessageElement::AckNack { reader_guid, writer_guid, acked_below, missing, count } => {
            put_u64(out, reader_guid.0);
            put_u64(out, writer_guid.0);
            put_u64(out, *acked_below);
            put_u32(out, *count);
            put_sequence_numbers(out, missing);
        },
        SubmessageElement::DataFrag(b) => put_bytes(out, b),
        SubmessageElement::HeartbeatFrag(b) => put_bytes(out, b),
        SubmessageElement::NackFrag(b) => put_bytes(out, b),
        SubmessageElement::Pad(b) => put_bytes(out, b),
        SubmessageElement::InfoTimestamp(b) => put_bytes(out, b),
        SubmessageElement::InfoReply(b) => put_bytes(out, b),
        SubmessageElement::InfoDestination(b) => put_bytes(out, b),
        SubmessageElement::InfoSource(b) => put_bytes(out, b),
    }
    assert(out@ =~= old(out)@ + spec_payload(element@));
}

/// Number of payload octets of `element`, where the two length octets can
/// announce it.
pub fn payload_len(element: &SubmessageElement) -> (len: Option<u16>)
    ensures
        match len {
            Some(n) => n == spec_payload(element@).len(),
            None => spec_payload(element@).len() > 0xffff,
        },
{
    proof {
        lemma_payload_len(element@);
    }
    let (fixed, each, count): (usize, usize, usize) = match element {
        SubmessageElement::Data(c) => (DATA_FIXED_LEN, 1, c.data.len()),
        SubmessageElement::Gap { .. } => (GAP_LEN, 1, 0),
        SubmessageElement::Heartbeat { .. } => (HEARTBEAT_LEN, 1, 0),
        SubmessageElement::AckNack { missing, .. } => (ACKNACK_FIXED_LEN, 8, missing.len()),
        SubmessageElement::DataFrag(b) => (0, 1, b.len()),
        SubmessageElement::HeartbeatFrag(b) => (0, 1, b.len()),
        SubmessageElement::NackFrag(b) => (0, 1, b.len()),
        SubmessageElement::Pad(b) => (0, 1, b.len()),
        SubmessageElement::InfoTimestamp(b) => (0, 1, b.len()),
        SubmessageElement::InfoReply(b) => (0, 1, b.len()),
        SubmessageElement::InfoDestination(b) => (0, 1, b.len()),
        SubmessageElement::InfoSource(b) => (0, 1, b.len()),
    };
    assert(spec_payload_len(element@) == fixed + each * count);
    if count > (MAX_PAYLOAD_LEN - fixed) / each {
        None
    } else {
        let len: usize = fixed + each * count;
        Some(len as u16)
    }
}

impl Submessage {
    /// Whether this submessage has a wire form.
    pub fn is_encodable(&self) -> (fits: bool)
        ensures
            fits == encodable(self@),
    {
        payload_len(&self.element).is_some()
    }

    /// The header that stands before the payload on the wire.
    pub fn header(&self) -> (header: SubmessageHeader)
        requires
            encodable(self@),
        ensures
            header.submessage_id == self@.element.kind(),
            header.flags == self@.flags,
            header.length == spec_payload(self@.element).len(),
    {
        let length: u16 = match payload_len(&self.element) {
            Some(n) => n,
            None => 0,
        };
        SubmessageHeader { submessage_id: self.element.kind(), flags: self.flags, length }
    }
}

/// The wire form of `m`.
pub fn encode(m: &Submessage) -> (out: Vec<u8>)
    requires
        encodable(m@),
    ensures
        out@ == spec_encode(m@),
{
    let header = m.header();
    let mut out: Vec<u8> = Vec::new();
    out.push(kind_tag(header.submessage_id));
    out.push(header.flags);
    put_u16(&mut out, header.length);
    put_payload(&mut out, &m.element);
    assert(out@ =~= spec_encode(m@));
    out
}

/// The header at the front of `buf`.
pub fn decode_header(buf: &[u8]) -> (header: Result<SubmessageHeader, DecodeError>)
    ensures
        header == spec_decode_header(buf@),
{
    if buf.len() < SUBMESSAGE_HEADER_LEN {
        return Err(DecodeError::Truncated);
    }
    match tag_kind(buf[0]) {
        None => Err(DecodeError::UnknownKind),
        Some(kind) => Ok(
            SubmessageHeader { submessage_id: kind, flags: buf[1], length: read_u16(buf, 2) },
        ),
    }
}

fn parse_payload(kind: SubmessageKind, p: &[u8]) -> (element: Option<SubmessageElement>)
    ensures
        match element {
            Some(e) => spec_parse_payload(kind, p@) == Some(e@),
            None => spec_parse_payload(kind, p@) is None,
        },
{
    let len: usize = p.len();
    match kind {
        SubmessageKind::Data => {
            if len < DATA_FIXED_LEN {
                return None;
            }
            match tag_change_kind(p[0]) {
                None => None,
                Some(change_kind) => {
                    let data = slice_to_vec(slice_subrange(p, DATA_FIXED_LEN, len));
                    assert(data@ == p@.skip(25));
                    Some(
                        SubmessageElement::Data(
                            CacheChange {
                                kind: change_kind,
                                writer_guid: Guid(read_u64(p, 1)),
                                sequence_number: read_u64(p, 9),
                                instance_handle: read_u64(p, 17),
                                data,
                            },
                        ),
                    )
                },
            }
        },
        SubmessageKind::Gap => {
            if len != GAP_LEN {
                return None;
            }
            Some(
                SubmessageElement::Gap {
                    writer_guid: Guid(read_u64(p, 0)),
                    first: read_u64(p, 8),
                    last: read_u64(p, 16),
                },
            )
        },
        SubmessageKind::Heartbeat => {
            if len != HEARTBEAT_LEN {
                return None;
            }
            Some(
                SubmessageElement::Heartbeat {
                    writer_guid: Guid(read_u64(p, 0)),
                    first: read_u64(p, 8),
                    last: read_u64(p, 16),
                    count: read_u32(p, 24),
                },
            )
        },
        SubmessageKind::AckNack => {
            if len < ACKNACK_FIXED_LEN || (len - ACKNACK_FIXED_LEN) % 8 != 0 {
                return None;
            }
            let tail = slice_subrange(p, ACKNACK_FIXED_LEN, len);
            assert(tail@ == p@.skip(28));
            Some(
                SubmessageElement::AckNack {
                    reader_guid: Guid(read_u64(p, 0)),
                    writer_guid: Guid(read_u64(p, 8)),
                    acked_below: read_u64(p, 16),
                    missing: parse_sequence_numbers(tail),
                    count: read_u32(p, 24),
                },
            )
        },
        _ => SubmessageElement::uninterpreted(kind, slice_to_vec(p)),
    }
}

/// Decodes the submessage at the front of `buf`; with it comes the number
/// of octets it took.
pub fn decode(buf: &[u8]) -> (outcome: Result<(Submessage, usize), DecodeError>)
    ensures
        match outcome {
            Ok((m, taken)) => spec_decode(buf@) == Ok::<(SubmessageView, int), DecodeError>(
                (m@, taken as int),
            ),
            Err(e) => spec_decode(buf@) == Err::<(SubmessageView, int), DecodeError>(e),
        },
{
    let header = match decode_header(buf) {
        Err(e) => {
            return Err(e);
        },
        Ok(h) => h,
    };
    let length: usize = header.length as usize;
    if buf.len() - SUBMESSAGE_HEADER_LEN < length {
        return Err(DecodeError::Truncated);
    }
    let end: usize = SUBMESSAGE_HEADER_LEN + length;
    match parse_payload(header.submessage_id, slice_subrange(buf, SUBMESSAGE_HEADER_LEN, end)) {
        None => Err(DecodeError::Malformed),
        Some(element) => Ok((Submessage { flags: header.flags, element }, end)),
    }
}

} // verus!
