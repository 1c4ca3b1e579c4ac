//! The wire form of a datagram: sixteen header octets, then the submessages
//! one after the other.

use vstd::prelude::*;
use vstd::bytes::{
    lemma_auto_spec_u16_to_from_le_bytes, lemma_auto_spec_u64_to_from_le_bytes,
    spec_u16_from_le_bytes, spec_u16_to_le_bytes, spec_u64_to_le_bytes,
};
use vstd::slice::slice_subrange;
use crate::codec::{
    DecodeError, decode, encodable, encode, lemma_decode_encode, payload_len, put_u16, put_u64,
    read_u16, read_u64, spec_decode, spec_encode, spec_payload, spec_u64_at,
};
use crate::message::{Header, ProtocolId, Submessage, SubmessageView, submessage_views};

verus! {

/// Octets of a datagram header.
pub const DATAGRAM_HEADER_LEN: usize = 16;

/// Most octets one datagram carries: what UDP over IPv4 leaves of 65,535
/// after its own and the IP header.
pub const MAX_DATAGRAM_LEN: usize = 65_507;

/// Most payload octets of a submessage that travels alone in a datagram:
/// what the datagram header and the submessage header leave.
pub const MAX_LONE_PAYLOAD_LEN: usize = 65_487;

/// Whether `m` can travel alone in one datagram: its wire form, behind the
/// datagram header, is no longer than a datagram may be.
pub open spec fn fits_datagram(m: SubmessageView) -> bool {
    16 + 4 + spec_payload(m.element).len() <= 65_507
}

/// The four octets every datagram starts with: the letters R, T, P, S.
pub open spec fn spec_protocol_octets() -> Seq<u8> {
    seq![0x52u8, 0x54u8, 0x50u8, 0x53u8]
}

/// The wire form of a datagram header.
pub open spec fn spec_encode_header(h: Header) -> Seq<u8> {
    spec_protocol_octets() + spec_u16_to_le_bytes(h.version) + spec_u16_to_le_bytes(h.vendor_id)
        + spec_u64_to_le_bytes(h.guid_prefix)
}

/// The datagram header at the front of `b`, or why there is none.
pub open spec fn spec_decode_datagram_header(b: Seq<u8>) -> Result<Header, DecodeError> {
    if b.len() < 4 {
        Err(DecodeError::Truncated)
    } else if b.take(4) != spec_protocol_octets() {
        Err(DecodeError::Malformed)
    } else if b.len() < 16 {
        Err(DecodeError::Truncated)
    } else {
        Ok(
            Header {
                protocol: ProtocolId::Rtps,
                version: spec_u16_from_le_bytes(b.subrange(4, 6)),
                vendor_id: spec_u16_from_le_bytes(b.subrange(6, 8)),
                guid_prefix: spec_u64_at(b, 8),
            },
        )
    }
}

/// The wire forms of submessages, one after the other.
pub open spec fn spec_encode_all(ms: Seq<SubmessageView>) -> Seq<u8>
    decreases ms.len(),
{
    if ms.len() == 0 {
        Seq::<u8>::empty()
    } else {
        spec_encode(ms[0]) + spec_encode_all(ms.skip(1))
    }
}

/// `front` before what `rest` holds, where it holds anything.
pub open spec fn spec_after(front: Seq<SubmessageView>, rest: Result<Seq<SubmessageView>, DecodeError>) -> Result<
    Seq<SubmessageView>,
    DecodeError,
> {
    match rest {
        Ok(ms) => Ok(front + ms),
        Err(e) => Err(e),
    }
}

/// The submessages that `b` holds one after the other up to its end, or why
/// the first that cannot be decoded cannot.
pub open spec fn spec_decode_all(b: Seq<u8>) -> Result<Seq<SubmessageView>, DecodeError>
    decreases b.len(),
{
    if b.len() == 0 {
        Ok(Seq::<SubmessageView>::empty())
    } else {
        match spec_decode(b) {
            Err(e) => Err(e),
            Ok((m, taken)) => spec_after(seq![m], spec_decode_all(b.skip(taken))),
        }
    }
}

/// The wire form of a datagram.
pub open spec fn spec_encode_datagram(h: Header, ms: Seq<SubmessageView>) -> Seq<u8> {
    spec_encode_header(h) + spec_encode_all(ms)
}

/// The header and the submessages of datagram `b`, or why it has to be
/// dropped. A datagram holds at least one submessage.
pub open spec fn spec_decode_datagram(b: Seq<u8>) -> Result<(Header, Seq<SubmessageView>), DecodeError> {
    match spec_decode_datagram_header(b) {
        Err(e) => Err(e),
        Ok(h) => if b.len() == 16 {
            Err(DecodeError::Truncated)
        } else {
            match spec_decode_all(b.skip(16)) {
                Err(e) => Err(e),
                Ok(ms) => Ok((h, ms)),
            }
        },
    }
}

/// Whether every submessage of `ms` has a wire form.
pub open spec fn all_encodable(ms: Seq<SubmessageView>) -> bool {
    forall|i: int| 0 <= i < ms.len() ==> encodable(#[trigger] ms[i])
}

/// The datagram that carries one submessage alone is as long as the two
/// headers and the payload; so one that fits a datagram has a wire form and
/// its datagram is no longer than a datagram may be.
pub proof fn lemma_lone_datagram_len(h: Header, m: SubmessageView)
    requires
        encodable(m),
    ensures
        spec_encode_datagram(h, seq![m]).len() == 16 + 4 + spec_payload(m.element).len(),
        fits_datagram(m) ==> spec_encode_datagram(h, seq![m]).len() <= 65_507,
{
    lemma_auto_spec_u16_to_from_le_bytes();
    lemma_auto_spec_u64_to_from_le_bytes();
    lemma_decode_encode(m, Seq::<u8>::empty());
    let ms = seq![m];
    assert(ms.skip(1) =~= Seq::<SubmessageView>::empty());
    assert(spec_encode_all(ms.skip(1)) =~= Seq::<u8>::empty());
    assert(spec_encode_all(ms) =~= spec_encode(m));
}

/// A submessage decoded from the front of a buffer takes at least its four
/// header octets and no more than the buffer holds.
pub proof fn lemma_decode_takes(b: Seq<u8>)
    requires
        spec_decode(b) is Ok,
    ensures
        4 <= spec_decode(b).unwrap().1 <= b.len(),
{
}

/// The wire form of submessages followed by one more is their wire form
/// followed by that of the last.
pub proof fn lemma_encode_all_push(ms: Seq<SubmessageView>, m: SubmessageView)
    ensures
        spec_encode_all(ms.push(m)) == spec_encode_all(ms) + spec_encode(m),
    decreases ms.len(),
{
    let all = ms.push(m);
    if ms.len() == 0 {
        assert(all.skip(1) =~= Seq::<SubmessageView>::empty());
        assert(spec_encode_all(all.skip(1)) =~= Seq::<u8>::empty());
        assert(spec_encode_all(all) =~= spec_encode_all(ms) + spec_encode(m));
    } else {
        lemma_encode_all_push(ms.skip(1), m);
        assert(all.skip(1) =~= ms.skip(1).push(m));
        assert(spec_encode_all(all) =~= spec_encode_all(ms) + spec_encode(m));
    }
}

/// Decoding the wire forms of encodable submessages gives them back.
pub proof fn lemma_decode_all_encoded(ms: Seq<SubmessageView>)
    requires
        all_encodable(ms),
    ensures
        spec_decode_all(spec_encode_all(ms)) == Ok::<Seq<SubmessageView>, DecodeError>(ms),
    decreases ms.len(),
{
    if ms.len() > 0 {
        let rest = spec_encode_all(ms.skip(1));
        let b = spec_encode_all(ms);
        assert(encodable(ms[0]));
        assert forall|i: int| 0 <= i < ms.skip(1).len() implies encodable(#[trigger] ms.skip(1)[i]) by {
            assert(ms.skip(1)[i] == ms[i + 1]);
        }
        lemma_decode_encode(ms[0], rest);
        lemma_decode_all_encoded(ms.skip(1));
        let taken = spec_encode(ms[0]).len() as int;
        assert(b.len() > 0);
        assert(b.skip(taken) =~= rest);
        assert(seq![ms[0]] + ms.skip(1) =~= ms);
        assert(spec_decode_all(b) == spec_after(seq![ms[0]], spec_decode_all(rest)));
    } else {
        assert(ms =~= Seq::<SubmessageView>::empty());
    }
}

/// Decoding is the inverse of encoding for datagrams too: the wire form of a
/// header and of at least one encodable submessage decodes to them.
pub proof fn lemma_decode_datagram_encoded(h: Header, ms: Seq<SubmessageView>)
    requires
        all_encodable(ms),
        ms.len() > 0,
    ensures
        spec_decode_datagram(spec_encode_datagram(h, ms)) == Ok::<
            (Header, Seq<SubmessageView>),
            DecodeError,
        >((h, ms)),
{
    lemma_auto_spec_u16_to_from_le_bytes();
    lemma_auto_spec_u64_to_from_le_bytes();
    lemma_decode_all_encoded(ms);
    let b = spec_encode_datagram(h, ms);
    lemma_decode_encode(ms[0], spec_encode_all(ms.skip(1)));
    assert(spec_encode_all(ms).len() >= 4);
    assert(b.take(4) =~= spec_protocol_octets());
    assert(b.subrange(4, 6) =~= spec_u16_to_le_bytes(h.version));
    assert(b.subrange(6, 8) =~= spec_u16_to_le_bytes(h.vendor_id));
    assert(b.subrange(8, 16) =~= spec_u64_to_le_bytes(h.guid_prefix));
    assert(b.skip(16) =~= spec_encode_all(ms));
}

impl Submessage {
    /// Whether this submessage can travel alone in one datagram.
    pub fn fits_datagram(&self) -> (fits: bool)
        ensures
            fits == fits_datagram(self@),
            fits ==> encodable(self@),
    {
        match payload_len(&self.element) {
            Some(len) => len as usize <= MAX_LONE_PAYLOAD_LEN,
            None => false,
        }
    }
}

/// The wire form of a datagram that carries `messages` under `header`.
pub fn encode_datagram(header: &Header, messages: &Vec<Submessage>) -> (out: Vec<u8>)
    requires
        all_encodable(submessage_views(messages@)),
    ensures
        out@ == spec_encode_datagram(*header, submessage_views(messages@)),
{
    let ghost views = submessage_views(messages@);
    let mut out: Vec<u8> = Vec::new();
    out.push(0x52);
    out.push(0x54);
    out.push(0x50);
    out.push(0x53);
    put_u16(&mut out, header.version);
    put_u16(&mut out, header.vendor_id);
    put_u64(&mut out, header.guid_prefix);
    assert(out@ =~= spec_encode_header(*header) + spec_encode_all(views.take(0)));
    let mut i: usize = 0;
    while i < messages.len()
        invariant
            i <= messages.len(),
            views == submessage_views(messages@),
            all_encodable(views),
            out@ == spec_encode_header(*header) + spec_encode_all(views.take(i as int)),
        decreases messages.len() - i,
    {
        assert(views[i as int] == messages@[i as int]@);
        let mut bytes = encode(&messages[i]);
        out.append(&mut bytes);
        proof {
            lemma_encode_all_push(views.take(i as int), views[i as int]);
            assert(views.take(i as int).push(views[i as int]) =~= views.take(i + 1));
            assert(out@ =~= spec_encode_header(*header) + spec_encode_all(views.take(i + 1)));
        }
        i += 1;
    }
    assert(views.take(i as int) =~= views);
    out
}

/// The datagram header at the front of `buf`.
pub fn decode_datagram_header(buf: &[u8]) -> (header: Result<Header, DecodeError>)
    ensures
        header == spec_decode_datagram_header(buf@),
{
    if buf.len() < 4 {
        return Err(DecodeError::Truncated);
    }
    if buf[0] != 0x52 || buf[1] != 0x54 || buf[2] != 0x50 || buf[3] != 0x53 {
        assert(buf@.take(4)[0] == buf@[0] && buf@.take(4)[1] == buf@[1] && buf@.take(4)[2]
            == buf@[2] && buf@.take(4)[3] == buf@[3]);
        return Err(DecodeError::Malformed);
    }
    assert(buf@.take(4) =~= spec_protocol_octets());
    if buf.len() < DATAGRAM_HEADER_LEN {
        return Err(DecodeError::Truncated);
    }
    Ok(
        Header {
            protocol: ProtocolId::Rtps,
            version: read_u16(buf, 4),
            vendor_id: read_u16(buf, 6),
            guid_prefix: read_u64(buf, 8),
        },
    )
}

/// Decodes a whole datagram: its header and every submessage up to the end
/// of the buffer. The first submessage that cannot be decoded fails the
/// datagram.
pub fn decode_datagram(buf: &[u8]) -> (outcome: Result<(Header, Vec<Submessage>), DecodeError>)
    ensures
        match outcome {
            Ok((h, ms)) => spec_decode_datagram(buf@) == Ok::<
                (Header, Seq<SubmessageView>),
                DecodeError,
            >((h, submessage_views(ms@))),
            Err(e) => spec_decode_datagram(buf@) == Err::<(Header, Seq<SubmessageView>), DecodeError>(
                e,
            ),
        },
{
    let header = match decode_datagram_header(buf) {
        Err(e) => {
            return Err(e);
        },
        Ok(h) => h,
    };
    let len: usize = buf.len();
    if len == DATAGRAM_HEADER_LEN {
        return Err(DecodeError::Truncated);
    }
    let ghost body = buf@.skip(16);
    let mut messages: Vec<Submessage> = Vec::new();
    let mut at: usize = DATAGRAM_HEADER_LEN;
    assert(spec_decode_all(body) == spec_after(
        submessage_views(messages@),
        spec_decode_all(buf@.skip(at as int)),
    )) by {
        let rest = spec_decode_all(buf@.skip(at as int));
        if rest is Ok {
            assert(submessage_views(messages@) + rest.unwrap() =~= rest.unwrap());
        }
    }
    while at < len
        invariant
            16 <= at <= len,
            16 < len == buf@.len(),
            body == buf@.skip(16),
            spec_decode_datagram_header(buf@) == Ok::<Header, DecodeError>(header),
            spec_decode_all(body) == spec_after(
                submessage_views(messages@),
                spec_decode_all(buf@.skip(at as int)),
            ),
        decreases len - at,
    {
        let ghost here = buf@.skip(at as int);
        let ghost so_far = submessage_views(messages@);
        assert(buf@.subrange(at as int, len as int) =~= here);
        match decode(slice_subrange(buf, at, len)) {
            Err(e) => {
                assert(spec_decode_all(here) == Err::<Seq<SubmessageView>, DecodeError>(e));
                return Err(e);
            },
            Ok((m, taken)) => {
                proof {
                    lemma_decode_takes(here);
                    assert(here.skip(taken as int) =~= buf@.skip(at + taken));
                    let rest = spec_decode_all(buf@.skip(at + taken));
                    if rest is Ok {
                        assert(so_far + (seq![m@] + rest.unwrap()) =~= so_far.push(m@)
                            + rest.unwrap());
                    }
                }
                messages.push(m);
                assert(submessage_views(messages@) =~= so_far.push(m@));
                at += taken;
            },
        }
    }
    proof {
        assert(buf@.skip(at as int) =~= Seq::<u8>::empty());
        assert(submessage_views(messages@) + Seq::<SubmessageView>::empty() =~= submessage_views(
            messages@,
        ));
    }
    Ok((header, messages))
}

} // verus!
