use offences::{ConcurrencyIndex, Kind, LogEntry, OffenceDetails, ReportId, ReportStore, RetentionLog};

const KIND: Kind = *b"babe:equivocatio";
const OTHER: Kind = *b"grandpa:equivoca";

fn id(tag: u8) -> ReportId {
    [tag; 32]
}

fn details(offender: u8, reporter: u8) -> OffenceDetails {
    OffenceDetails { offender: vec![offender], reporters: vec![vec![reporter]] }
}

#[test]
fn report_store_inserts_overwrites_and_removes() {
    let mut store = ReportStore::new();
    assert!(!store.contains_key(&id(1)));
    assert_eq!(store.get(&id(1)), None);

    store.insert(id(1), details(1, 10));
    store.insert(id(2), details(2, 20));
    assert!(store.contains_key(&id(1)));
    assert_eq!(store.get(&id(2)), Some(&details(2, 20)));

    store.insert(id(1), details(1, 11));
    assert_eq!(store.get(&id(1)), Some(&details(1, 11)));
    assert_eq!(store.get(&id(2)), Some(&details(2, 20)));

    store.remove(&id(3));
    store.remove(&id(1));
    assert!(!store.contains_key(&id(1)));
    assert_eq!(store.get(&id(2)), Some(&details(2, 20)));
}

#[test]
fn concurrency_index_appends_in_admission_order() {
    let mut index = ConcurrencyIndex::new();
    let slot = vec![1u8, 2];
    assert_eq!(index.get(&KIND, &slot), Vec::<ReportId>::new());
    index.insert(&KIND, &slot, id(3));
    index.insert(&KIND, &slot, id(1));
    index.insert(&OTHER, &slot, id(9));
    index.insert(&KIND, &vec![1u8], id(8));
    index.insert(&KIND, &slot, id(2));
    assert_eq!(index.get(&KIND, &slot), vec![id(3), id(1), id(2)]);
    assert_eq!(index.get(&OTHER, &slot), vec![id(9)]);
    assert_eq!(index.get(&KIND, &vec![1u8]), vec![id(8)]);
    assert_eq!(index.get(&OTHER, &vec![1u8]), Vec::<ReportId>::new());
}

#[test]
fn concurrency_index_drops_a_bucket_that_becomes_empty() {
    let mut index = ConcurrencyIndex::new();
    let slot = vec![5u8];
    index.insert(&KIND, &slot, id(1));
    index.insert(&KIND, &slot, id(2));
    index.insert(&KIND, &slot, id(1));

    index.remove(&KIND, &slot, &id(7));
    index.remove(&OTHER, &slot, &id(1));
    assert_eq!(index.get(&KIND, &slot), vec![id(1), id(2), id(1)]);

    index.remove(&KIND, &slot, &id(1));
    assert_eq!(index.get(&KIND, &slot), vec![id(2), id(1)]);
    index.remove(&KIND, &slot, &id(2));
    index.remove(&KIND, &slot, &id(1));
    assert_eq!(index.get(&KIND, &slot), Vec::<ReportId>::new());
    assert_eq!(index, ConcurrencyIndex::new());
}

fn entry(kind: Kind, slot: u8, tag: u8) -> LogEntry {
    LogEntry { kind, time_slot: vec![slot], id: id(tag) }
}

#[test]
fn retention_log_keeps_buckets_in_order_of_session() {
    let mut log = RetentionLog::new();
    assert_eq!(log.sessions(), Vec::<u32>::new());
    log.record_admission(5, &KIND, &vec![1], id(1));
    log.record_admission(2, &KIND, &vec![1], id(2));
    log.record_admission(9, &OTHER, &vec![2], id(3));
    log.record_admission(5, &KIND, &vec![3], id(4));
    log.record_admission(0, &KIND, &vec![1], id(5));
    log.record_admission(u32::MAX, &KIND, &vec![1], id(6));
    log.record_admission(2, &KIND, &vec![1], id(7));
    assert_eq!(log.sessions(), vec![0, 2, 5, 9, u32::MAX]);
}

#[test]
fn retention_log_prunes_the_buckets_below_the_cutoff() {
    let mut log = RetentionLog::new();
    log.record_admission(5, &KIND, &vec![1], id(1));
    log.record_admission(2, &KIND, &vec![1], id(2));
    log.record_admission(9, &OTHER, &vec![2], id(3));
    log.record_admission(5, &KIND, &vec![3], id(4));
    log.record_admission(2, &OTHER, &vec![1], id(5));

    assert_eq!(log.prune_before(2), Vec::<LogEntry>::new());
    assert_eq!(log.sessions(), vec![2, 5, 9]);

    let removed = log.prune_before(6);
    assert_eq!(
        removed,
        vec![entry(KIND, 1, 2), entry(OTHER, 1, 5), entry(KIND, 1, 1), entry(KIND, 3, 4)]
    );
    assert_eq!(log.sessions(), vec![9]);

    assert_eq!(log.prune_before(u32::MAX), vec![entry(OTHER, 2, 3)]);
    assert_eq!(log, RetentionLog::new());
}
