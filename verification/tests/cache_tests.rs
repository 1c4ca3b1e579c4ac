use libdds::cache::HistoryCache;
use libdds::types::{CacheChange, ChangeKind, DuplicateChange, Guid};

fn change(guid: u64, n: u64, data: &[u8]) -> CacheChange {
    CacheChange {
        kind: ChangeKind::Alive,
        writer_guid: Guid(guid),
        sequence_number: n,
        instance_handle: 0,
        data: data.to_vec(),
    }
}

fn numbers(found: &[CacheChange]) -> Vec<u64> {
    found.iter().map(|c| c.sequence_number).collect()
}

#[test]
fn it_works() {
}

#[test]
fn new_cache_is_empty() {
    let cache = HistoryCache::new();
    assert_eq!(cache.len(), 0);
    assert_eq!(cache.get_seq_num_min(), None);
    assert_eq!(cache.get_seq_num_max(), None);
    assert!(!cache.contains(Guid(1), 1));
    assert!(cache.get_change(Guid(1), 1).is_none());
    assert!(cache.changes_in_range(0, u64::MAX).is_empty());
}

#[test]
fn add_change_keeps_ascending_order() {
    let mut cache = HistoryCache::new();
    for n in [3u64, 1, 5, 2, 4] {
        assert_eq!(cache.add_change(change(7, n, &[n as u8])), Ok(()));
    }
    assert_eq!(cache.len(), 5);
    assert_eq!(numbers(&cache.changes_in_range(0, u64::MAX)), vec![1, 2, 3, 4, 5]);
    assert_eq!(cache.get_seq_num_min(), Some(1));
    assert_eq!(cache.get_seq_num_max(), Some(5));
}

#[test]
fn add_change_refuses_a_duplicate() {
    let mut cache = HistoryCache::new();
    assert_eq!(cache.add_change(change(7, 1, b"first")), Ok(()));
    assert_eq!(cache.add_change(change(7, 1, b"second")), Err(DuplicateChange));
    assert_eq!(cache.len(), 1);
    assert_eq!(cache.get_change(Guid(7), 1).unwrap().data, b"first".to_vec());
}

#[test]
fn same_number_of_two_writers_is_no_duplicate() {
    let mut cache = HistoryCache::new();
    assert_eq!(cache.add_change(change(9, 1, b"nine")), Ok(()));
    assert_eq!(cache.add_change(change(7, 1, b"seven")), Ok(()));
    assert_eq!(cache.len(), 2);
    let all = cache.changes_in_range(1, 1);
    assert_eq!(all[0].writer_guid, Guid(7));
    assert_eq!(all[1].writer_guid, Guid(9));
    assert_eq!(cache.get_change(Guid(9), 1).unwrap().data, b"nine".to_vec());
}

#[test]
fn remove_change_takes_out_one_change() {
    let mut cache = HistoryCache::new();
    for n in 1u64..=4 {
        cache.add_change(change(7, n, &[])).unwrap();
    }
    cache.remove_change(Guid(7), 2);
    assert_eq!(numbers(&cache.changes_in_range(0, 10)), vec![1, 3, 4]);
    assert!(!cache.contains(Guid(7), 2));
    assert!(cache.contains(Guid(7), 3));
}

#[test]
fn removing_an_absent_change_is_a_no_op() {
    let mut cache = HistoryCache::new();
    cache.remove_change(Guid(7), 1);
    assert_eq!(cache.len(), 0);
    cache.add_change(change(7, 1, b"a")).unwrap();
    cache.add_change(change(7, 3, b"c")).unwrap();
    cache.remove_change(Guid(7), 2);
    cache.remove_change(Guid(8), 1);
    assert_eq!(cache.len(), 2);
    assert_eq!(numbers(&cache.changes_in_range(0, 10)), vec![1, 3]);
    cache.remove_change(Guid(7), 1);
    cache.remove_change(Guid(7), 1);
    assert_eq!(numbers(&cache.changes_in_range(0, 10)), vec![3]);
}

#[test]
fn min_and_max_follow_the_content() {
    let mut cache = HistoryCache::new();
    cache.add_change(change(7, 10, &[])).unwrap();
    assert_eq!(cache.get_seq_num_min(), Some(10));
    assert_eq!(cache.get_seq_num_max(), Some(10));
    cache.add_change(change(7, 4, &[])).unwrap();
    cache.add_change(change(7, 25, &[])).unwrap();
    assert_eq!(cache.get_seq_num_min(), Some(4));
    assert_eq!(cache.get_seq_num_max(), Some(25));
    cache.remove_change(Guid(7), 4);
    cache.remove_change(Guid(7), 25);
    assert_eq!(cache.get_seq_num_min(), Some(10));
    assert_eq!(cache.get_seq_num_max(), Some(10));
}

#[test]
fn changes_in_range_is_inclusive_and_ascending() {
    let mut cache = HistoryCache::new();
    for n in [8u64, 2, 6, 4, 10] {
        cache.add_change(change(7, n, &[n as u8])).unwrap();
    }
    assert_eq!(numbers(&cache.changes_in_range(4, 8)), vec![4, 6, 8]);
    assert_eq!(numbers(&cache.changes_in_range(5, 5)), Vec::<u64>::new());
    assert_eq!(numbers(&cache.changes_in_range(9, 3)), Vec::<u64>::new());
    assert_eq!(numbers(&cache.changes_in_range(0, 2)), vec![2]);
    assert_eq!(numbers(&cache.changes_in_range(10, u64::MAX)), vec![10]);
    assert_eq!(cache.changes_in_range(6, 6)[0].data, vec![6u8]);
}

#[test]
fn duplicate_and_same_as_agree() {
    let a = change(7, 1, b"payload");
    let b = a.duplicate();
    assert_eq!(a, b);
    assert!(a.same_as(&b));
    assert!(!a.same_as(&change(7, 1, b"payloae")));
    assert!(!a.same_as(&change(7, 2, b"payload")));
    assert!(!a.same_as(&change(8, 1, b"payload")));
    assert!(!a.same_as(&change(7, 1, b"payloa")));
}

#[test]
fn remove_through_takes_out_the_oldest() {
    let mut cache = HistoryCache::new();
    for n in [1u64, 2, 4, 7] {
        cache.add_change(change(7, n, &[])).unwrap();
    }
    cache.add_change(change(9, 4, &[])).unwrap();
    assert_eq!(cache.remove_through(0), 0);
    assert_eq!(cache.len(), 5);
    assert_eq!(cache.remove_through(3), 2);
    assert_eq!(numbers(&cache.changes_in_range(0, u64::MAX)), vec![4, 4, 7]);
    assert_eq!(cache.remove_through(4), 2);
    assert_eq!(numbers(&cache.changes_in_range(0, u64::MAX)), vec![7]);
    assert_eq!(cache.remove_through(u64::MAX), 1);
    assert_eq!(cache.len(), 0);
    assert_eq!(cache.remove_through(u64::MAX), 0);
}

#[test]
fn implementation_is_known_as_libdds() {
    assert_eq!(libdds::types::implementation_identifier(), "libdds\0");
}
