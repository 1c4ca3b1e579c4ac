use libdds::codec::{decode, encode};
use libdds::message::{Destination, Submessage, SubmessageElement};
use libdds::reader::{Reaction, Reader, SyncState, MAX_NACKED};
use libdds::types::{CacheChange, ChangeKind, Guid, Reliability};
use libdds::writer::{AnnounceError, Eviction, UnmatchedReader, Writer};

const WRITER: Guid = Guid(44);
const READER: Guid = Guid(5);

fn change(guid: Guid, n: u64, data: &[u8]) -> CacheChange {
    CacheChange { kind: ChangeKind::Alive, writer_guid: guid, sequence_number: n, instance_handle: 0, data: data.to_vec() }
}

fn data_numbers(sent: &[Submessage]) -> Vec<u64> {
    let mut found = Vec::new();
    for m in sent {
        if let SubmessageElement::Data(c) = &m.element {
            found.push(c.sequence_number);
        }
    }
    found
}

fn missing_of(reply: &Submessage) -> Vec<u64> {
    match &reply.element {
        SubmessageElement::AckNack { missing, .. } => missing.clone(),
        other => panic!("no AckNack: {:?}", other),
    }
}

fn over_the_wire(m: &Submessage) -> Submessage {
    decode(&encode(m)).unwrap().0
}

fn writer_with_changes(count: u64) -> Writer {
    let mut writer = Writer::with_qos(WRITER, Reliability::Reliable, 0);
    writer.match_reader(READER);
    for n in 1..=count {
        let c = writer.new_change(vec![n as u8]);
        writer.announce(c).unwrap();
    }
    writer
}

#[test]
fn sequence_numbers_count_up_from_one() {
    let mut writer = Writer::new();
    assert_eq!(writer.guid(), Guid(44));
    assert_eq!(writer.last_sequence_number(), 0);
    for expected in 1u64..=100 {
        let c = writer.new_change(vec![1, 2, 3]);
        assert_eq!(c.sequence_number, expected);
        assert_eq!(c.writer_guid, Guid(44));
        assert_eq!(c.kind, ChangeKind::Alive);
        assert_eq!(c.data, vec![1, 2, 3]);
        assert_eq!(writer.last_sequence_number(), expected);
    }
    assert_eq!(writer.history_cache().len(), 0);
}

#[test]
fn a_number_that_is_not_announced_leaves_a_gap() {
    let mut writer = Writer::new();
    let first = writer.new_change(vec![]);
    let _unused = writer.new_change(vec![]);
    let third = writer.new_change(vec![]);
    writer.announce(first).unwrap();
    writer.announce(third).unwrap();
    assert_eq!(writer.history_cache().get_seq_num_min(), Some(1));
    assert_eq!(writer.history_cache().get_seq_num_max(), Some(3));
    assert!(!writer.history_cache().contains(Guid(44), 2));
    assert_eq!(writer.new_change(vec![]).sequence_number, 4);
}

#[test]
fn announce_sends_data_to_every_matched_reader() {
    let mut writer = Writer::with_qos(WRITER, Reliability::Reliable, 0);
    assert!(writer.match_reader(Guid(5)));
    assert!(writer.match_reader(Guid(6)));
    assert!(!writer.match_reader(Guid(5)));
    let c = writer.new_change(b"abc".to_vec());
    let done = writer.announce(c.duplicate()).unwrap();
    assert_eq!(done.evicted, None);
    assert_eq!(done.outbound.len(), 2);
    assert_eq!(done.outbound[0].to, Destination::Endpoint(Guid(5)));
    assert_eq!(done.outbound[1].to, Destination::Endpoint(Guid(6)));
    for out in &done.outbound {
        assert_eq!(out.message, Submessage::new(SubmessageElement::Data(c.duplicate())));
    }
    assert!(writer.history_cache().contains(WRITER, 1));
    assert!(writer.unmatch_reader(Guid(5)));
    assert!(!writer.unmatch_reader(Guid(5)));
    assert_eq!(writer.reader_proxies().len(), 1);
    assert_eq!(writer.reader_proxies()[0].reader_guid, Guid(6));
}

#[test]
fn announce_refuses_a_foreign_change() {
    let mut writer = Writer::with_qos(WRITER, Reliability::Reliable, 0);
    let issued = writer.new_change(vec![]);
    assert_eq!(writer.announce(change(WRITER, 0, b"")), Err(AnnounceError::ForeignChange));
    assert_eq!(writer.announce(change(WRITER, 2, b"")), Err(AnnounceError::ForeignChange));
    assert_eq!(writer.announce(change(Guid(45), 1, b"")), Err(AnnounceError::ForeignChange));
    assert_eq!(writer.history_cache().len(), 0);
    assert!(writer.announce(issued.duplicate()).is_ok());
    assert_eq!(writer.announce(issued), Err(AnnounceError::DuplicateChange));
    assert_eq!(writer.history_cache().len(), 1);
}

#[test]
fn a_full_cache_evicts_its_oldest_change() {
    let mut writer = Writer::with_qos(WRITER, Reliability::Reliable, 2);
    writer.match_reader(READER);
    for _ in 0..2 {
        let c = writer.new_change(vec![]);
        assert_eq!(writer.announce(c).unwrap().evicted, None);
    }
    // the reader has acknowledged nothing: the eviction is a warning
    let c = writer.new_change(vec![]);
    assert_eq!(
        writer.announce(c).unwrap().evicted,
        Some(Eviction { sequence_number: 1, unacknowledged: true })
    );
    assert_eq!(writer.history_cache().get_seq_num_min(), Some(2));
    assert_eq!(writer.history_cache().get_seq_num_max(), Some(3));
    // the reader needs nothing below 3
    assert!(!writer.is_acknowledged_by_all(2));
    writer.on_acknack(READER, 3, &vec![]).unwrap();
    assert!(writer.is_acknowledged_by_all(2));
    assert!(!writer.is_acknowledged_by_all(3));
    let c = writer.new_change(vec![]);
    assert_eq!(
        writer.announce(c).unwrap().evicted,
        Some(Eviction { sequence_number: 2, unacknowledged: false })
    );
    assert_eq!(writer.history_cache().len(), 2);
}

#[test]
fn a_best_effort_writer_evicts_without_warning() {
    let mut writer = Writer::with_qos(WRITER, Reliability::BestEffort, 1);
    writer.match_reader(READER);
    let c = writer.new_change(vec![]);
    writer.announce(c).unwrap();
    let c = writer.new_change(vec![]);
    assert_eq!(
        writer.announce(c).unwrap().evicted,
        Some(Eviction { sequence_number: 1, unacknowledged: false })
    );
}

#[test]
fn heartbeat_announces_first_and_last() {
    let mut writer = Writer::with_qos(WRITER, Reliability::Reliable, 0);
    assert_eq!(writer.heartbeat(), None);
    for _ in 0..3 {
        let c = writer.new_change(vec![]);
        writer.announce(c).unwrap();
    }
    assert_eq!(
        writer.heartbeat(),
        Some(Submessage::new(SubmessageElement::Heartbeat { writer_guid: WRITER, first: 1, last: 3, count: 1 }))
    );
    assert_eq!(
        writer.heartbeat(),
        Some(Submessage::new(SubmessageElement::Heartbeat { writer_guid: WRITER, first: 1, last: 3, count: 2 }))
    );
}

#[test]
fn retransmission_set_is_what_is_missing_and_retained() {
    let mut writer = writer_with_changes(5);
    let sent = writer.on_acknack(READER, 2, &vec![2, 4]).unwrap();
    assert_eq!(data_numbers(&sent), vec![2, 4]);
    assert_eq!(sent.len(), 2);
    assert_eq!(sent[0], Submessage::new(SubmessageElement::Data(change(WRITER, 2, &[2]))));
    assert_eq!(sent[1], Submessage::new(SubmessageElement::Data(change(WRITER, 4, &[4]))));
    assert_eq!(writer.reader_proxies()[0].acked_through, 1);
    assert_eq!(writer.reader_proxies()[0].requested, vec![2, 4]);
}

#[test]
fn what_is_retained_no_more_is_answered_with_a_gap() {
    let mut writer = Writer::with_qos(WRITER, Reliability::Reliable, 2);
    writer.match_reader(READER);
    for n in 1u8..=3 {
        let c = writer.new_change(vec![n]);
        writer.announce(c).unwrap();
    }
    let sent = writer.on_acknack(READER, 1, &vec![1, 3, 4, 0]).unwrap();
    assert_eq!(
        sent,
        vec![
            Submessage::new(SubmessageElement::Gap { writer_guid: WRITER, first: 1, last: 1 }),
            Submessage::new(SubmessageElement::Data(change(WRITER, 3, &[3]))),
        ]
    );
}

#[test]
fn acknowledged_mark_never_goes_back() {
    let mut writer = writer_with_changes(5);
    writer.on_acknack(READER, 4, &vec![4]).unwrap();
    assert_eq!(writer.reader_proxies()[0].acked_through, 3);
    writer.on_acknack(READER, 2, &vec![]).unwrap();
    assert_eq!(writer.reader_proxies()[0].acked_through, 3);
    assert_eq!(writer.reader_proxies()[0].requested, Vec::<u64>::new());
    writer.on_acknack(READER, 0, &vec![]).unwrap();
    assert_eq!(writer.reader_proxies()[0].acked_through, 3);
    writer.on_acknack(READER, u64::MAX, &vec![]).unwrap();
    assert_eq!(writer.reader_proxies()[0].acked_through, u64::MAX - 1);
}

#[test]
fn an_unmatched_reader_is_ignored() {
    let mut writer = writer_with_changes(3);
    assert_eq!(writer.on_acknack(Guid(99), 3, &vec![1, 2]), Err(UnmatchedReader));
    assert_eq!(writer.reader_proxies().len(), 1);
    assert_eq!(writer.reader_proxies()[0].acked_through, 0);
    assert_eq!(writer.reader_proxies()[0].requested, Vec::<u64>::new());
    assert_eq!(writer.history_cache().len(), 3);
}

#[test]
fn data_delivered_twice_is_applied_once() {
    let mut reader = Reader::with_qos(READER, Reliability::Reliable);
    let c = change(WRITER, 1, b"sample");
    assert_eq!(reader.on_data(c.duplicate()), Some(c.duplicate()));
    assert_eq!(reader.on_data(c.duplicate()), None);
    assert_eq!(reader.on_data(change(WRITER, 1, b"other bytes")), None);
    assert_eq!(reader.history_cache().len(), 1);
    assert_eq!(reader.history_cache().get_change(WRITER, 1), Some(&c));
    assert_eq!(
        reader._message(Submessage::new(SubmessageElement::Data(c.duplicate()))),
        Reaction::Nothing
    );
    assert_eq!(reader.history_cache().len(), 1);
}

#[test]
fn heartbeat_asks_for_what_is_missing() {
    let mut reader = Reader::with_qos(READER, Reliability::Reliable);
    reader.on_data(change(WRITER, 1, b"")).unwrap();
    reader.on_data(change(WRITER, 3, b"")).unwrap();
    let reply = reader.on_heartbeat(WRITER, 1, 5, 1).unwrap();
    assert_eq!(
        reply,
        Submessage::new(SubmessageElement::AckNack {
            reader_guid: READER,
            writer_guid: WRITER,
            acked_below: 2,
            missing: vec![2, 4, 5],
            count: 1,
        })
    );
    assert_eq!(reader.last_heartbeat_seen(), Some((WRITER, 1)));
    assert_eq!(reader.sync_state(WRITER), SyncState::OutOfSync);
    let again = reader.on_heartbeat(WRITER, 1, 5, 2).unwrap();
    assert_eq!(missing_of(&again), vec![2, 4, 5]);
    match again.element {
        SubmessageElement::AckNack { count, .. } => assert_eq!(count, 2),
        _ => unreachable!(),
    }
}

#[test]
fn heartbeat_of_another_writer_counts_its_own_changes() {
    let mut reader = Reader::new();
    assert_eq!(reader.guid(), Guid(0));
    assert_eq!(reader.reliability(), Reliability::Reliable);
    reader.on_data(change(Guid(1), 1, b"")).unwrap();
    reader.on_data(change(Guid(2), 2, b"")).unwrap();
    assert_eq!(missing_of(&reader.on_heartbeat(Guid(1), 1, 2, 1).unwrap()), vec![2]);
    assert_eq!(missing_of(&reader.on_heartbeat(Guid(2), 1, 2, 1).unwrap()), vec![1]);
    assert_eq!(reader.sync_state(Guid(1)), SyncState::Waiting);
    assert_eq!(reader.sync_state(Guid(2)), SyncState::OutOfSync);
}

#[test]
fn heartbeat_without_gaps_is_not_answered() {
    let mut reader = Reader::with_qos(READER, Reliability::Reliable);
    assert_eq!(reader.sync_state(WRITER), SyncState::Waiting);
    assert_eq!(reader.last_heartbeat_seen(), None);
    reader.on_data(change(WRITER, 1, b"")).unwrap();
    reader.on_data(change(WRITER, 2, b"")).unwrap();
    assert_eq!(reader.on_heartbeat(WRITER, 1, 2, 7), None);
    assert_eq!(reader.last_heartbeat_seen(), Some((WRITER, 7)));
    assert_eq!(reader.sync_state(WRITER), SyncState::InSync);
    // nothing is available: first is after last
    assert_eq!(reader.on_heartbeat(WRITER, 3, 2, 8), None);
    // sequence number 0 is never asked for
    assert_eq!(reader.on_heartbeat(WRITER, 0, 2, 9), None);
    assert_eq!(missing_of(&reader.on_heartbeat(WRITER, 0, 3, 10).unwrap()), vec![3]);
}

#[test]
fn gap_ends_the_asking() {
    let mut reader = Reader::with_qos(READER, Reliability::Reliable);
    reader.on_data(change(WRITER, 1, b"")).unwrap();
    assert_eq!(missing_of(&reader.on_heartbeat(WRITER, 1, 6, 1).unwrap()), vec![2, 3, 4, 5, 6]);
    reader.on_gap(WRITER, 2, 4);
    assert_eq!(reader.sync_state(WRITER), SyncState::OutOfSync);
    assert_eq!(missing_of(&reader.on_heartbeat(WRITER, 1, 6, 2).unwrap()), vec![5, 6]);
    // a gap of another writer covers nothing here
    reader.on_gap(Guid(45), 5, 6);
    assert_eq!(missing_of(&reader.on_heartbeat(WRITER, 1, 6, 3).unwrap()), vec![5, 6]);
    reader.on_data(change(WRITER, 6, b"")).unwrap();
    reader.on_gap(WRITER, 5, 5);
    assert_eq!(reader.sync_state(WRITER), SyncState::InSync);
    assert_eq!(reader.on_heartbeat(WRITER, 1, 6, 4), None);
    assert_eq!(reader.history_cache().len(), 2);
}

#[test]
fn acknack_names_every_lacking_number() {
    let mut reader = Reader::with_qos(READER, Reliability::Reliable);
    let reply = reader.on_heartbeat(WRITER, 1, 300, 1).unwrap();
    assert_eq!(missing_of(&reply), (1u64..=300).collect::<Vec<u64>>());
    assert!(reply.fits_datagram());
    assert_eq!(over_the_wire(&reply), reply);
    // as many as one AckNack can name
    let reply = reader.on_heartbeat(WRITER, 1, 8182, 2).unwrap();
    assert_eq!(missing_of(&reply), (1u64..=8182).collect::<Vec<u64>>());
    reader.on_data(change(WRITER, 5000, b"")).unwrap();
    reader.on_gap(WRITER, 100, 199);
    let reply = reader.on_heartbeat(WRITER, 1, 8182, 3).unwrap();
    let expected: Vec<u64> = (1u64..=8182).filter(|n| *n != 5000 && !(100..=199).contains(n)).collect();
    assert_eq!(expected.len(), 8081);
    assert_eq!(missing_of(&reply), expected);
}

#[test]
fn one_acknack_asks_for_no_more_than_a_datagram_carries() {
    let mut reader = Reader::with_qos(READER, Reliability::Reliable);
    let reply = reader.on_heartbeat(WRITER, 1, u64::MAX, 1).unwrap();
    let missing = missing_of(&reply);
    assert_eq!(MAX_NACKED, 8182);
    assert_eq!(MAX_NACKED, (65_507 - 16 - 4 - 28) / 8);
    assert_eq!(missing, (1u64..=8182).collect::<Vec<u64>>());
    assert!(reply.is_encodable());
    assert!(reply.fits_datagram());
    let reply = reader.on_heartbeat(WRITER, 1, 8183, 2).unwrap();
    assert_eq!(missing_of(&reply), (1u64..=8182).collect::<Vec<u64>>());
    // once the first have come, the next are asked for
    reader.on_gap(WRITER, 1, 8182);
    let reply = reader.on_heartbeat(WRITER, 1, 8183, 3).unwrap();
    assert_eq!(missing_of(&reply), vec![8183]);
    let reply = reader.on_heartbeat(WRITER, u64::MAX - 1, u64::MAX, 4).unwrap();
    assert_eq!(missing_of(&reply), vec![u64::MAX - 1, u64::MAX]);
}

#[test]
fn a_wide_heartbeat_does_not_stall_the_reader() {
    let mut reader = Reader::with_qos(READER, Reliability::Reliable);
    reader.on_gap(WRITER, 1, u64::MAX);
    assert_eq!(reader.on_heartbeat(WRITER, 1, u64::MAX, 1), None);
    assert_eq!(reader.on_heartbeat(WRITER, 0, u64::MAX, 2), None);
    assert_eq!(reader.sync_state(WRITER), SyncState::InSync);

    let mut reader = Reader::with_qos(READER, Reliability::Reliable);
    reader.on_data(change(WRITER, 1, b"")).unwrap();
    reader.on_data(change(WRITER, 2, b"")).unwrap();
    reader.on_gap(WRITER, 3, 1 << 40);
    reader.on_gap(WRITER, (1 << 40) + 2, u64::MAX - 1);
    reader.on_gap(WRITER, 2, 10);
    let reply = reader.on_heartbeat(WRITER, 1, u64::MAX, 1).unwrap();
    assert_eq!(missing_of(&reply), vec![(1 << 40) + 1, u64::MAX]);
    assert_eq!(reader.sync_state(WRITER), SyncState::OutOfSync);
    reader.on_data(change(WRITER, (1 << 40) + 1, b"")).unwrap();
    reader.on_data(change(WRITER, u64::MAX, b"")).unwrap();
    assert_eq!(reader.on_heartbeat(WRITER, 1, u64::MAX, 2), None);
    assert_eq!(reader.sync_state(WRITER), SyncState::InSync);
    // a gap that ends before the range does not hide what follows it
    let mut reader = Reader::with_qos(READER, Reliability::Reliable);
    reader.on_gap(WRITER, 1, 1 << 50);
    let reply = reader.on_heartbeat(WRITER, 5, (1 << 50) + 2, 1).unwrap();
    assert_eq!(missing_of(&reply), vec![(1 << 50) + 1, (1 << 50) + 2]);
    assert_eq!(reader.on_heartbeat(WRITER, 5, 1 << 50, 2), None);
}

#[test]
fn message_dispatches_by_kind() {
    let mut reader = Reader::with_qos(READER, Reliability::Reliable);
    let c = change(WRITER, 2, b"two");
    assert_eq!(
        reader._message(Submessage::new(SubmessageElement::Data(c.duplicate()))),
        Reaction::Deliver(c)
    );
    let reply = reader._message(Submessage::new(SubmessageElement::Heartbeat {
        writer_guid: WRITER,
        first: 1,
        last: 3,
        count: 1,
    }));
    match reply {
        Reaction::Reply(m) => assert_eq!(missing_of(&m), vec![1, 3]),
        other => panic!("no reply: {:?}", other),
    }
    assert_eq!(
        reader._message(Submessage::new(SubmessageElement::Gap { writer_guid: WRITER, first: 1, last: 1 })),
        Reaction::Nothing
    );
    assert_eq!(reader._message(Submessage::new(SubmessageElement::Pad(vec![1, 2]))), Reaction::Nothing);
    assert_eq!(reader._message(Submessage::new(SubmessageElement::InfoTimestamp(vec![0; 8]))), Reaction::Nothing);
    assert_eq!(
        reader._message(Submessage::new(SubmessageElement::AckNack {
            reader_guid: READER,
            writer_guid: WRITER,
            acked_below: 1,
            missing: vec![1],
            count: 1,
        })),
        Reaction::Nothing
    );
    assert_eq!(reader.history_cache().len(), 1);
    let reply = reader.on_heartbeat(WRITER, 1, 3, 2).unwrap();
    assert_eq!(missing_of(&reply), vec![3]);
}

#[test]
fn reliable_pair_recovers_a_dropped_change() {
    let mut writer = Writer::with_qos(WRITER, Reliability::Reliable, 0);
    let mut reader = Reader::with_qos(READER, Reliability::Reliable);
    writer.match_reader(READER);
    let mut delivered: Vec<u64> = Vec::new();

    // the writer publishes changes 1 and 2
    let first = writer.new_change(b"one".to_vec());
    let first_out = writer.announce(first).unwrap().outbound;
    let second = writer.new_change(b"two".to_vec());
    let _dropped_by_the_network = writer.announce(second).unwrap().outbound;

    // only change 1 arrives
    assert_eq!(first_out.len(), 1);
    assert_eq!(first_out[0].to, Destination::Endpoint(READER));
    match reader._message(over_the_wire(&first_out[0].message)) {
        Reaction::Deliver(c) => delivered.push(c.sequence_number),
        other => panic!("no delivery: {:?}", other),
    }

    // the writer sends Heartbeat(1, 2)
    let beat = writer.heartbeat().unwrap();
    assert_eq!(
        beat.element,
        SubmessageElement::Heartbeat { writer_guid: WRITER, first: 1, last: 2, count: 1 }
    );

    // the reader answers AckNack(missing = {2})
    let reply = match reader._message(over_the_wire(&beat)) {
        Reaction::Reply(m) => over_the_wire(&m),
        other => panic!("no reply: {:?}", other),
    };
    assert_eq!(missing_of(&reply), vec![2]);
    assert_eq!(reader.sync_state(WRITER), SyncState::OutOfSync);

    // the writer sends change 2 again
    let resent = match &reply.element {
        SubmessageElement::AckNack { reader_guid, acked_below, missing, .. } => {
            writer.on_acknack(*reader_guid, *acked_below, missing).unwrap()
        }
        _ => unreachable!(),
    };
    assert_eq!(data_numbers(&resent), vec![2]);
    for m in &resent {
        match reader._message(over_the_wire(m)) {
            Reaction::Deliver(c) => delivered.push(c.sequence_number),
            other => panic!("no delivery: {:?}", other),
        }
    }

    // the cache of the reader ends with {1, 2}; the application saw each once, in order
    let cached: Vec<u64> = reader.history_cache().changes_in_range(0, u64::MAX).iter().map(|c| c.sequence_number).collect();
    assert_eq!(cached, vec![1, 2]);
    assert_eq!(delivered, vec![1, 2]);
    assert_eq!(reader.history_cache().get_change(WRITER, 2).unwrap().data, b"two".to_vec());
    assert_eq!(reader.sync_state(WRITER), SyncState::InSync);
    assert_eq!(reader.on_heartbeat(WRITER, 1, 2, 2), None);
}

#[test]
fn best_effort_pair_never_recovers_a_dropped_change() {
    let mut writer = Writer::with_qos(WRITER, Reliability::BestEffort, 0);
    let mut reader = Reader::with_qos(READER, Reliability::BestEffort);
    writer.match_reader(READER);
    let first = writer.new_change(b"one".to_vec());
    let first_out = writer.announce(first).unwrap().outbound;
    let second = writer.new_change(b"two".to_vec());
    let _dropped_by_the_network = writer.announce(second).unwrap().outbound;
    assert!(matches!(reader._message(over_the_wire(&first_out[0].message)), Reaction::Deliver(_)));

    // a best-effort writer sends no heartbeat
    assert_eq!(writer.heartbeat(), None);
    // and a best-effort reader answers none, whoever sent it
    assert_eq!(reader.on_heartbeat(WRITER, 1, 2, 1), None);
    assert_eq!(
        reader._message(Submessage::new(SubmessageElement::Heartbeat { writer_guid: WRITER, first: 1, last: 2, count: 2 })),
        Reaction::Nothing
    );
    assert_eq!(reader.last_heartbeat_seen(), Some((WRITER, 2)));
    // a best-effort writer sends nothing again, whoever asks
    assert_eq!(writer.on_acknack(READER, 2, &vec![2]), Ok(vec![]));
    assert_eq!(reader.history_cache().len(), 1);
    assert!(!reader.history_cache().contains(WRITER, 2));
}

#[test]
fn what_every_reader_acknowledged_is_released() {
    let mut writer = Writer::with_qos(WRITER, Reliability::Reliable, 0);
    for n in 1u8..=5 {
        let c = writer.new_change(vec![n]);
        writer.announce(c).unwrap();
    }
    // no reader is matched: nothing is acknowledged, nothing leaves
    assert_eq!(writer.release_acknowledged(), 0);
    writer.match_reader(Guid(5));
    writer.match_reader(Guid(6));
    assert_eq!(writer.release_acknowledged(), 0);
    writer.on_acknack(Guid(5), 5, &vec![]).unwrap();
    // the other reader has acknowledged nothing yet
    assert_eq!(writer.release_acknowledged(), 0);
    writer.on_acknack(Guid(6), 3, &vec![3]).unwrap();
    assert_eq!(writer.release_acknowledged(), 2);
    assert_eq!(writer.history_cache().get_seq_num_min(), Some(3));
    assert_eq!(writer.history_cache().get_seq_num_max(), Some(5));
    assert_eq!(writer.release_acknowledged(), 0);
    // what has left is answered with a gap
    assert_eq!(
        writer.on_acknack(Guid(6), 3, &vec![1, 3]).unwrap(),
        vec![
            Submessage::new(SubmessageElement::Gap { writer_guid: WRITER, first: 1, last: 1 }),
            Submessage::new(SubmessageElement::Data(change(WRITER, 3, &[3]))),
        ]
    );
    assert_eq!(
        writer.heartbeat().unwrap().element,
        SubmessageElement::Heartbeat { writer_guid: WRITER, first: 3, last: 5, count: 1 }
    );
}
