use bytes::Bytes;
use protobuf::Message as PbMessage;
use raft::eraftpb;
use wal_server::replication::messages::{ConfState, Entry, EntryKind, HardState, Snapshot};
use wal_server::replication::storage::{
    join_state, limited_count, limited_len, LogError, PersistentState, StateFileError,
    StorageError,
};

fn entry(term: u64, index: u64, data: &'static [u8]) -> Entry {
    let mut e = Entry::empty(term, index);
    e.data = Bytes::from_static(data);
    e
}

#[test]
fn persists_hardstate_entries_and_snapshot() {
    let conf = ConfState::of_voters(vec![1, 2, 3]);
    let mut store = PersistentState::bootstrap(conf);

    store.set_hardstate(HardState {
        term: 4,
        vote: 0,
        commit: 2,
    });
    assert_eq!(store.append(&[Entry::empty(1, 1), Entry::empty(4, 2)]), Ok(true));
    store.create_snapshot(2, b"hello".to_vec()).unwrap();
    assert_eq!(store.compact(3), Ok(true));

    let file = store.encode().unwrap();
    let reopened = PersistentState::decode(&file).unwrap();
    assert_eq!(reopened.hard_state().term, 4);
    assert_eq!(reopened.snapshot_index(), 2);
    assert_eq!(reopened.first_index(), 3);
    assert_eq!(reopened.snapshot().data.as_ref(), b"hello");
    assert_eq!(reopened.snapshot().term, 4);
    assert_eq!(reopened.snapshot().conf_state.voters, vec![1, 2, 3]);
    assert_eq!(reopened.initial_state().1.voters, vec![1, 2, 3]);
}

#[test]
fn a_log_starts_with_one_empty_entry() {
    let log = PersistentState::bootstrap(ConfState::of_voters(vec![1]));
    assert!(log.is_well_formed());
    assert_eq!((log.first_index(), log.last_index()), (1, 1));
    assert_eq!((log.hard_state().term, log.hard_state().commit), (1, 1));
    assert_eq!(log.term(0), Ok(0));
    assert_eq!(log.term(1), Ok(1));
    assert_eq!(log.term(2), Err(StorageError::Unavailable));
    let none = PersistentState::default();
    assert_eq!((none.first_index(), none.last_index()), (1, 0));
}

#[test]
fn appends_replace_conflicting_entries() {
    let mut log = PersistentState::bootstrap(ConfState::of_voters(vec![1]));
    assert_eq!(log.append(&[]), Ok(false));
    assert_eq!(log.append(&[entry(2, 2, b"b"), entry(2, 3, b"c")]), Ok(true));
    assert_eq!(log.append(&[entry(3, 3, b"C")]), Ok(true));
    assert_eq!(log.last_index(), 3);
    assert_eq!(log.term(2), Ok(2));
    assert_eq!(log.term(3), Ok(3));
    log.create_snapshot(2, vec![]).unwrap();
    assert_eq!(log.compact(3), Ok(true));
    assert_eq!(log.compact(2), Ok(false));
    assert_eq!(log.compact(9), Err(LogError::CompactsBeyondEnd));
    assert_eq!(log.append(&[entry(3, 2, b"x")]), Err(LogError::OverwritesCompacted));
    assert_eq!(log.term(1), Err(StorageError::Compacted));
    assert_eq!(log.term(2), Ok(2));
    assert_eq!(
        log.create_snapshot(1, vec![]),
        Err(LogError::Storage(StorageError::Compacted))
    );
    assert_eq!(
        LogError::OverwritesCompacted.describe(),
        "attempted to overwrite compacted raft entries"
    );
    assert_eq!(
        LogError::CompactsBeyondEnd.describe(),
        "compact index beyond last raft log index"
    );
    assert_eq!(LogError::Storage(StorageError::Compacted).describe(), "log compacted");
}

#[test]
fn entries_come_in_ranges_and_within_limits() {
    let mut log = PersistentState::bootstrap(ConfState::of_voters(vec![1]));
    log.append(&[entry(1, 2, b"bb"), entry(1, 3, b"cc"), entry(1, 4, b"dd")]).unwrap();
    let indexes = |ents: Vec<Entry>| ents.iter().map(|e| e.index).collect::<Vec<u64>>();
    assert_eq!(indexes(log.entries(2, 5, None).unwrap()), vec![2, 3, 4]);
    assert_eq!(indexes(log.entries(2, 5, Some(u64::MAX)).unwrap()), vec![2, 3, 4]);
    assert_eq!(indexes(log.entries(2, 5, Some(0)).unwrap()), vec![2]);
    assert_eq!(indexes(log.entries(3, 4, Some(0)).unwrap()), vec![3]);
    assert_eq!(indexes(log.entries(3, 3, None).unwrap()), Vec::<u64>::new());
    assert_eq!(log.entries(0, 2, None).unwrap_err(), StorageError::Compacted);
    assert_eq!(log.entries(2, 6, None).unwrap_err(), StorageError::Unavailable);
    assert_eq!(log.entries(9, 6, None).unwrap_err(), StorageError::Unavailable);
    assert_eq!(StorageError::Unavailable.describe(), "log unavailable");
}

#[test]
fn limits_agree_with_the_raft_crate() {
    let mut ours = Vec::new();
    let mut theirs = Vec::new();
    for (i, len) in [0usize, 5, 90, 3, 1000, 7].iter().enumerate() {
        let mut e = Entry::empty(i as u64, i as u64);
        e.data = Bytes::from(vec![7u8; *len]);
        ours.push(e);
        let mut m = eraftpb::Entry::default();
        m.term = i as u64;
        m.index = i as u64;
        m.data = Bytes::from(vec![7u8; *len]);
        theirs.push(m);
    }
    for max in [None, Some(0), Some(1), Some(10), Some(12), Some(110), Some(120), Some(2000), Some(u64::MAX)] {
        let mut cut = theirs.clone();
        raft::util::limit_size(&mut cut, max);
        assert_eq!(limited_len(&ours, max), cut.len());
    }
    assert_eq!(limited_count(&vec![0, 5, 5, 5], Some(7)), 2);
    assert_eq!(limited_count(&vec![9, 5], Some(7)), 1);
    assert_eq!(limited_count(&vec![9], Some(7)), 1);
    assert_eq!(limited_count(&vec![3, 4, 1], Some(7)), 2);
}

#[test]
fn snapshots_replace_the_log() {
    let mut log = PersistentState::bootstrap(ConfState::of_voters(vec![1]));
    let mut snapshot = Snapshot::empty(ConfState::of_voters(vec![4, 5]));
    snapshot.index = 50;
    snapshot.term = 7;
    log.apply_snapshot(snapshot);
    assert_eq!((log.first_index(), log.last_index()), (51, 50));
    assert_eq!((log.hard_state().term, log.hard_state().commit), (7, 50));
    assert_eq!(log.initial_state().1.voters, vec![4, 5]);
    assert_eq!(log.term(50), Ok(7));
    assert_eq!(log.term(49), Err(StorageError::Compacted));
    assert!(log.entries(51, 51, None).unwrap().is_empty());
    assert!(log.entries(52, 51, None).unwrap().is_empty());
    assert_eq!(log.snapshot_covering(50).unwrap().index, 50);
    assert_eq!(log.snapshot_covering(51).unwrap_err(), StorageError::SnapshotOutOfDate);
    assert_eq!(StorageError::SnapshotOutOfDate.describe(), "snapshot out of date");
}

#[test]
fn the_state_file_holds_protobuf_messages() {
    let mut log = PersistentState::bootstrap(ConfState::of_voters(vec![1, 300]));
    let mut e = entry(2, 2, b"data");
    e.kind = EntryKind::ConfChangeV2;
    e.context = Bytes::from_static(b"context");
    e.sync_log = true;
    assert!(e.fits());
    assert!(log.fits());
    log.append(&[e]).unwrap();

    let mut hs = eraftpb::HardState::default();
    hs.term = 1;
    hs.commit = 1;
    let mut cs = eraftpb::ConfState::default();
    cs.voters = vec![1, 300];
    let mut sn = eraftpb::Snapshot::default();
    sn.mut_metadata().set_conf_state(cs.clone());
    let mut e1 = eraftpb::Entry::default();
    e1.index = 1;
    e1.term = 1;
    let mut e2 = eraftpb::Entry::default();
    e2.entry_type = eraftpb::EntryType::EntryConfChangeV2;
    e2.index = 2;
    e2.term = 2;
    e2.data = Bytes::from_static(b"data");
    e2.context = Bytes::from_static(b"context");
    e2.sync_log = true;
    let wires: Vec<Vec<u8>> = vec![e1.write_to_bytes().unwrap(), e2.write_to_bytes().unwrap()];
    let expected = join_state(
        &hs.write_to_bytes().unwrap(),
        &cs.write_to_bytes().unwrap(),
        &sn.write_to_bytes().unwrap(),
        &wires,
    );
    let file = log.encode().unwrap();
    assert_eq!(file, expected);

    let back = PersistentState::decode(&file).unwrap();
    assert!(back.is_well_formed());
    assert_eq!(back.entries.len(), 2);
    assert_eq!(back.entries[1].kind, EntryKind::ConfChangeV2);
    assert_eq!(back.entries[1].data.as_ref(), b"data");
    assert_eq!(back.entries[1].context.as_ref(), b"context");
    assert!(back.entries[1].sync_log);
    assert_eq!(back.conf_state.voters, vec![1, 300]);
}

#[test]
fn joined_parts_carry_their_lengths() {
    let file = join_state(&vec![1], &vec![], &vec![2, 3], &vec![vec![4, 5, 6]]);
    assert_eq!(
        file,
        vec![0, 0, 0, 1, 1, 0, 0, 0, 0, 0, 0, 0, 2, 2, 3, 0, 0, 0, 1, 0, 0, 0, 3, 4, 5, 6]
    );
}

#[test]
fn broken_state_files_are_refused() {
    let log = PersistentState::bootstrap(ConfState::of_voters(vec![1]));
    let file = log.encode().unwrap();
    let error = |data: &[u8]| PersistentState::decode(data).err().unwrap();
    assert_eq!(error(&[]), StateFileError::TruncatedLength);
    assert_eq!(error(&[0, 0, 0, 9, 1]), StateFileError::TruncatedPayload);
    assert_eq!(error(&[0, 0, 0, 1, 0xFF]), StateFileError::Codec);
    assert_eq!(error(&[0; 14]), StateFileError::MissingEntryCount);
    assert_eq!(error(&file[..file.len() - 1]), StateFileError::TruncatedPayload);
    assert_eq!(
        StateFileError::MissingEntryCount.describe(),
        "corrupt raft storage state: missing entry count"
    );
    assert_eq!(
        StateFileError::TruncatedLength.describe(),
        "corrupt raft storage state: truncated length"
    );
    assert_eq!(
        StateFileError::TruncatedPayload.describe(),
        "corrupt raft storage state: truncated protobuf payload"
    );
}

#[test]
fn gaps_are_noticed() {
    let mut log = PersistentState::bootstrap(ConfState::of_voters(vec![1]));
    assert!(log.is_well_formed());
    log.append(&[entry(1, 5, b"")]).unwrap();
    assert!(!log.is_well_formed());
}

#[test]
fn logs_with_gaps_answer_where_they_can() {
    let mut log = PersistentState::bootstrap(ConfState::of_voters(vec![1]));
    log.append(&[entry(3, 5, b"")]).unwrap();
    assert_eq!((log.first_index(), log.last_index()), (1, 5));
    assert!(log.has_term(0) && log.has_term(1) && log.has_term(2) && log.has_term(6));
    assert!(!log.has_term(3) && !log.has_term(5));
    assert_eq!(log.term(1), Ok(1));
    assert_eq!(log.term(2), Ok(3));
    assert_eq!(log.term(6), Err(StorageError::Unavailable));
    assert!(log.has_entries(1, 3) && log.has_entries(0, 9) && log.has_entries(1, 7));
    assert!(!log.has_entries(1, 4) && !log.has_entries(2, 1));
    assert_eq!(log.entries(1, 3, None).unwrap().len(), 2);
    assert_eq!(log.entries(1, 7, None).unwrap_err(), StorageError::Unavailable);
    assert!(log.can_compact(1) && log.can_compact(3) && log.can_compact(9));
    assert!(!log.can_compact(4));
    assert_eq!(log.compact(2), Ok(true));
    assert_eq!(log.first_index(), 5);
}
