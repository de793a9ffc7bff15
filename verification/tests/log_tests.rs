use raft::log::LogStore;
use raft::protos::{LogEntry, LogEntryData};

fn noop(index: u64, term: u64) -> LogEntry {
    LogEntry { index, term, data: LogEntryData::Noop }
}

#[test]
fn fresh_log_is_empty() {
    let log = LogStore::new();
    assert_eq!(log.first_index(), None);
    assert_eq!(log.last_index(), None);
    assert_eq!(log.term(0), Some(0));
    assert_eq!(log.term(1), None);
    assert!(log.entry(1).is_none());
    assert_eq!(log.match_index(), None);
}

#[test]
fn append_and_lookup() {
    let mut log = LogStore::new();
    log.append(noop(1, 1));
    log.append(noop(2, 1));
    log.append(LogEntry { index: 3, term: 2, data: LogEntryData::Command(b"v".to_vec()) });
    assert_eq!(log.first_index(), Some(1));
    assert_eq!(log.last_index(), Some(3));
    assert_eq!(log.term(1), Some(1));
    assert_eq!(log.term(3), Some(2));
    assert_eq!(log.term(4), None);
    let e = log.entry(3).unwrap();
    assert_eq!(e.index, 3);
    assert!(matches!(e.data, LogEntryData::Command(_)));
}

#[test]
fn truncate_suffix_drops_from_index() {
    let mut log = LogStore::new();
    for i in 1..=5u64 {
        log.append(noop(i, 1));
    }
    log.set_match_index(5);
    log.truncate_suffix(3);
    assert_eq!(log.last_index(), Some(2));
    assert_eq!(log.term(2), Some(1));
    assert_eq!(log.term(3), None);
    // the durability marker was pulled back inside the log
    assert_eq!(log.match_index(), Some(2));
    // truncating beyond the end changes nothing
    log.truncate_suffix(7);
    assert_eq!(log.last_index(), Some(2));
}

#[test]
fn compacted_log_remembers_base_term() {
    let mut log = LogStore::with_base(10, 3);
    assert_eq!(log.first_index(), None);
    assert_eq!(log.last_index(), Some(10));
    assert_eq!(log.term(10), Some(3));
    assert_eq!(log.term(9), None);
    assert_eq!(log.term(0), Some(0));
    log.append(noop(11, 3));
    assert_eq!(log.first_index(), Some(11));
    assert_eq!(log.term(11), Some(3));
}

#[test]
fn match_index_tracks_flushes() {
    let mut log = LogStore::new();
    log.append(noop(1, 1));
    log.append(noop(2, 1));
    assert_eq!(log.match_index(), None);
    log.set_match_index(1);
    assert_eq!(log.match_index(), Some(1));
    log.set_match_index(2);
    assert_eq!(log.match_index(), Some(2));
}
