use libdds::codec::{decode, decode_header, encode, kind_tag, payload_len, tag_kind, DecodeError};
use libdds::datagram::{decode_datagram, decode_datagram_header, encode_datagram};
use libdds::message::{Header, ProtocolId, Submessage, SubmessageElement, SubmessageHeader, SubmessageKind};
use libdds::types::{CacheChange, ChangeKind, Guid};

fn heartbeat() -> Submessage {
    Submessage::new(SubmessageElement::Heartbeat { writer_guid: Guid(44), first: 1, last: 2, count: 1 })
}

fn data(kind: ChangeKind, n: u64, bytes: &[u8]) -> Submessage {
    Submessage::new(SubmessageElement::Data(CacheChange {
        kind,
        writer_guid: Guid(0x0102030405060708),
        sequence_number: n,
        instance_handle: 9,
        data: bytes.to_vec(),
    }))
}

fn every_kind() -> Vec<Submessage> {
    vec![
        data(ChangeKind::Alive, 1, b"sample"),
        data(ChangeKind::NotAliveDisposed, 2, b""),
        data(ChangeKind::NotAliveUnregistered, u64::MAX, &[0xff; 300]),
        Submessage { flags: 0x80, element: SubmessageElement::DataFrag(vec![1, 2, 3]) },
        Submessage::new(SubmessageElement::Gap { writer_guid: Guid(44), first: 3, last: 7 }),
        heartbeat(),
        Submessage::new(SubmessageElement::AckNack {
            reader_guid: Guid(5),
            writer_guid: Guid(44),
            acked_below: 2,
            missing: vec![2, 4, 5],
            count: 7,
        }),
        Submessage::new(SubmessageElement::AckNack {
            reader_guid: Guid(5),
            writer_guid: Guid(44),
            acked_below: 0,
            missing: vec![],
            count: u32::MAX,
        }),
        Submessage::new(SubmessageElement::HeartbeatFrag(vec![4])),
        Submessage::new(SubmessageElement::NackFrag(vec![5, 6])),
        Submessage { flags: 1, element: SubmessageElement::Pad(vec![]) },
        Submessage::new(SubmessageElement::InfoTimestamp(vec![0; 8])),
        Submessage::new(SubmessageElement::InfoReply(vec![7])),
        Submessage::new(SubmessageElement::InfoDestination(vec![8; 12])),
        Submessage::new(SubmessageElement::InfoSource(vec![9; 20])),
    ]
}

#[test]
fn heartbeat_has_this_wire_form() {
    let bytes = encode(&heartbeat());
    let mut expected = vec![0x07u8, 0x00, 28, 0];
    expected.extend_from_slice(&[44, 0, 0, 0, 0, 0, 0, 0]);
    expected.extend_from_slice(&[1, 0, 0, 0, 0, 0, 0, 0]);
    expected.extend_from_slice(&[2, 0, 0, 0, 0, 0, 0, 0]);
    expected.extend_from_slice(&[1, 0, 0, 0]);
    assert_eq!(bytes, expected);
}

#[test]
fn data_has_this_wire_form() {
    let bytes = encode(&data(ChangeKind::NotAliveDisposed, 0x0a0b, b"xyz"));
    let mut expected = vec![0x15u8, 0x00, 28, 0, 1];
    expected.extend_from_slice(&[8, 7, 6, 5, 4, 3, 2, 1]);
    expected.extend_from_slice(&[0x0b, 0x0a, 0, 0, 0, 0, 0, 0]);
    expected.extend_from_slice(&[9, 0, 0, 0, 0, 0, 0, 0]);
    expected.extend_from_slice(b"xyz");
    assert_eq!(bytes, expected);
}

#[test]
fn acknack_has_this_wire_form() {
    let m = Submessage {
        flags: 3,
        element: SubmessageElement::AckNack {
            reader_guid: Guid(5),
            writer_guid: Guid(44),
            acked_below: 2,
            missing: vec![2, 0x0100],
            count: 0x01020304,
        },
    };
    let mut expected = vec![0x06u8, 3, 44, 0];
    expected.extend_from_slice(&[5, 0, 0, 0, 0, 0, 0, 0]);
    expected.extend_from_slice(&[44, 0, 0, 0, 0, 0, 0, 0]);
    expected.extend_from_slice(&[2, 0, 0, 0, 0, 0, 0, 0]);
    expected.extend_from_slice(&[4, 3, 2, 1]);
    expected.extend_from_slice(&[2, 0, 0, 0, 0, 0, 0, 0]);
    expected.extend_from_slice(&[0, 1, 0, 0, 0, 0, 0, 0]);
    assert_eq!(encode(&m), expected);
}

#[test]
fn decode_inverts_encode_for_every_kind() {
    for m in every_kind() {
        assert!(m.is_encodable());
        let bytes = encode(&m);
        assert_eq!(decode(&bytes), Ok((m.duplicate(), bytes.len())));
        let mut longer = bytes.clone();
        longer.extend_from_slice(&[0xaa, 0xbb]);
        assert_eq!(decode(&longer), Ok((m, bytes.len())));
    }
}

#[test]
fn encode_inverts_decode() {
    let bytes = vec![0x08u8, 0x02, 24, 0, 1, 2, 3, 4, 5, 6, 7, 8, 9, 9, 9, 9, 9, 9, 9, 9, 1, 1, 1, 1, 1, 1, 1, 1, 0x55];
    let (m, taken) = decode(&bytes).unwrap();
    assert_eq!(taken, 28);
    assert_eq!(m.kind(), SubmessageKind::Gap);
    assert_eq!(encode(&m), bytes[..28].to_vec());
}

#[test]
fn kind_octets_are_these() {
    let expected = [
        (SubmessageKind::Pad, 0x01u8),
        (SubmessageKind::AckNack, 0x06),
        (SubmessageKind::Heartbeat, 0x07),
        (SubmessageKind::Gap, 0x08),
        (SubmessageKind::InfoTimestamp, 0x09),
        (SubmessageKind::InfoSource, 0x0c),
        (SubmessageKind::InfoDestination, 0x0e),
        (SubmessageKind::InfoReply, 0x0f),
        (SubmessageKind::NackFrag, 0x12),
        (SubmessageKind::HeartbeatFrag, 0x13),
        (SubmessageKind::Data, 0x15),
        (SubmessageKind::DataFrag, 0x16),
    ];
    for (kind, tag) in expected {
        assert_eq!(kind_tag(kind), tag);
        assert_eq!(tag_kind(tag), Some(kind));
    }
    let known: Vec<u8> = expected.iter().map(|p| p.1).collect();
    for tag in 0u8..=255 {
        if !known.contains(&tag) {
            assert_eq!(tag_kind(tag), None);
        }
    }
}

#[test]
fn header_says_kind_flags_and_length() {
    let m = Submessage { flags: 0x41, element: SubmessageElement::NackFrag(vec![0; 300]) };
    let expected = SubmessageHeader { submessage_id: SubmessageKind::NackFrag, flags: 0x41, length: 300 };
    assert_eq!(m.header(), expected);
    assert_eq!(decode_header(&encode(&m)), Ok(expected));
    assert_eq!(payload_len(&m.element), Some(300));
    assert_eq!(payload_len(&heartbeat().element), Some(28));
    assert_eq!(payload_len(&data(ChangeKind::Alive, 1, b"abc").element), Some(28));
}

#[test]
fn payload_that_is_too_long_is_not_encodable() {
    let fits = data(ChangeKind::Alive, 1, &vec![0u8; 0xffff - 25]);
    assert!(fits.is_encodable());
    assert_eq!(payload_len(&fits.element), Some(0xffff));
    let bytes = encode(&fits);
    assert_eq!(bytes.len(), 4 + 0xffff);
    assert_eq!(decode(&bytes), Ok((fits, 4 + 0xffff)));
    let too_long = data(ChangeKind::Alive, 1, &vec![0u8; 0xffff - 24]);
    assert!(!too_long.is_encodable());
    assert_eq!(payload_len(&too_long.element), None);
    let pad = Submessage::new(SubmessageElement::Pad(vec![0u8; 0x10000]));
    assert!(!pad.is_encodable());
    let nack = |n: usize| {
        Submessage::new(SubmessageElement::AckNack {
            reader_guid: Guid(1),
            writer_guid: Guid(2),
            acked_below: 1,
            missing: vec![1u64; n],
            count: 0,
        })
    };
    assert!(nack(8188).is_encodable());
    assert!(!nack(8189).is_encodable());
}

#[test]
fn truncated_buffer_needs_more_bytes() {
    let bytes = encode(&heartbeat());
    for len in 0..bytes.len() {
        assert_eq!(decode(&bytes[..len]), Err(DecodeError::Truncated));
    }
    assert_eq!(decode_header(&[0x07, 0, 28]), Err(DecodeError::Truncated));
}

#[test]
fn unknown_kind_is_reported() {
    assert_eq!(decode(&[0x00, 0, 0, 0]), Err(DecodeError::UnknownKind));
    assert_eq!(decode(&[0x17, 0, 0, 0]), Err(DecodeError::UnknownKind));
    assert_eq!(decode(&[0xff, 0, 1, 0]), Err(DecodeError::UnknownKind));
    assert_eq!(decode_header(&[0x0d, 0, 0, 0]), Err(DecodeError::UnknownKind));
}

#[test]
fn malformed_payload_is_reported() {
    // a heartbeat of 27 octets
    let mut short = vec![0x07u8, 0, 27, 0];
    short.extend_from_slice(&[0; 27]);
    assert_eq!(decode(&short), Err(DecodeError::Malformed));
    // a gap of 25 octets
    let mut long = vec![0x08u8, 0, 25, 0];
    long.extend_from_slice(&[0; 25]);
    assert_eq!(decode(&long), Err(DecodeError::Malformed));
    // an acknack whose sequence numbers are cut
    let mut cut = vec![0x06u8, 0, 33, 0];
    cut.extend_from_slice(&[0; 33]);
    assert_eq!(decode(&cut), Err(DecodeError::Malformed));
    // a data payload without its fixed part
    let mut brief = vec![0x15u8, 0, 24, 0];
    brief.extend_from_slice(&[0; 24]);
    assert_eq!(decode(&brief), Err(DecodeError::Malformed));
    // a data payload with a change kind that does not exist
    let mut odd = encode(&data(ChangeKind::Alive, 1, b"abc"));
    odd[4] = 3;
    assert_eq!(decode(&odd), Err(DecodeError::Malformed));
}

#[test]
fn flags_and_payload_are_carried_unchanged() {
    let m = Submessage { flags: 0xa5, element: SubmessageElement::InfoSource(vec![1, 2, 3, 4]) };
    let bytes = encode(&m);
    assert_eq!(bytes, vec![0x0c, 0xa5, 4, 0, 1, 2, 3, 4]);
    let (back, _) = decode(&bytes).unwrap();
    assert_eq!(back.flags, 0xa5);
    assert_eq!(back.element, SubmessageElement::InfoSource(vec![1, 2, 3, 4]));
}

#[test]
fn uninterpreted_payload_exists_for_eight_kinds() {
    assert_eq!(SubmessageElement::uninterpreted(SubmessageKind::Pad, vec![1]), Some(SubmessageElement::Pad(vec![1])));
    assert_eq!(
        SubmessageElement::uninterpreted(SubmessageKind::InfoReply, vec![]),
        Some(SubmessageElement::InfoReply(vec![]))
    );
    assert_eq!(SubmessageElement::uninterpreted(SubmessageKind::Data, vec![1]), None);
    assert_eq!(SubmessageElement::uninterpreted(SubmessageKind::Gap, vec![1]), None);
    assert_eq!(SubmessageElement::uninterpreted(SubmessageKind::Heartbeat, vec![1]), None);
    assert_eq!(SubmessageElement::uninterpreted(SubmessageKind::AckNack, vec![1]), None);
}

fn header() -> Header {
    Header { protocol: ProtocolId::Rtps, version: 0x0102, vendor_id: 0x0a0b, guid_prefix: 44 }
}

#[test]
fn datagram_has_this_wire_form() {
    let bytes = encode_datagram(&header(), &vec![Submessage { flags: 1, element: SubmessageElement::Pad(vec![7]) }]);
    let mut expected = b"RTPS".to_vec();
    expected.extend_from_slice(&[0x02, 0x01, 0x0b, 0x0a]);
    expected.extend_from_slice(&[44, 0, 0, 0, 0, 0, 0, 0]);
    expected.extend_from_slice(&[0x01, 1, 1, 0, 7]);
    assert_eq!(bytes, expected);
}

#[test]
fn decode_datagram_inverts_encode_datagram() {
    let messages = every_kind();
    let bytes = encode_datagram(&header(), &messages);
    assert_eq!(decode_datagram_header(&bytes), Ok(header()));
    assert_eq!(decode_datagram(&bytes), Ok((header(), messages)));
    let one = vec![heartbeat()];
    assert_eq!(decode_datagram(&encode_datagram(&header(), &one)), Ok((header(), one)));
}

#[test]
fn datagram_errors_are_told_apart() {
    let bytes = encode_datagram(&header(), &vec![heartbeat(), data(ChangeKind::Alive, 1, b"abc")]);
    // cut anywhere: more bytes are needed (a cut between the two submessages leaves a whole datagram)
    for len in 0..bytes.len() {
        if len == 16 + 32 {
            assert!(decode_datagram(&bytes[..len]).is_ok());
        } else {
            assert_eq!(decode_datagram(&bytes[..len]), Err(DecodeError::Truncated));
        }
    }
    // a header alone holds no submessage
    assert_eq!(decode_datagram(&bytes[..16]), Err(DecodeError::Truncated));
    assert_eq!(decode_datagram_header(&bytes[..16]), Ok(header()));
    // another protocol
    let mut other = bytes.clone();
    other[3] = b'X';
    assert_eq!(decode_datagram(&other), Err(DecodeError::Malformed));
    assert_eq!(decode_datagram_header(b"RTPX"), Err(DecodeError::Malformed));
    assert_eq!(decode_datagram_header(b"RTP"), Err(DecodeError::Truncated));
    // an unknown kind in the second place
    let mut unknown = bytes.clone();
    unknown[16 + 32] = 0x77;
    assert_eq!(decode_datagram(&unknown), Err(DecodeError::UnknownKind));
    // a malformed payload in the second place
    let mut malformed = bytes.clone();
    malformed[16 + 32 + 4] = 9;
    assert_eq!(decode_datagram(&malformed), Err(DecodeError::Malformed));
}
