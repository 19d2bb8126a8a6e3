use lodestone::log_store::{RaftStorage, Snapshot};
use lodestone::types::{Command, Error, HardState, LogEntry};

fn e(index: u64, term: u64) -> LogEntry {
    LogEntry { index, term, command: Command::Noop }
}

fn terms(s: &RaftStorage) -> Vec<(u64, u64)> {
    s.all_entries().iter().map(|x| (x.index, x.term)).collect()
}

#[test]
fn empty_log_bounds() {
    let s = RaftStorage::new();
    assert_eq!(s.first_index(), 1);
    assert_eq!(s.last_index(), 0);
    assert_eq!(s.term(0), Ok(0));
    assert_eq!(s.term(1), Err(Error::OutOfRange));
    assert!(matches!(s.entries(0, 0), Err(Error::OutOfRange)));
    assert_eq!(s.initial_state(), HardState::initial());
}

#[test]
fn append_and_read_back() {
    let mut s = RaftStorage::new();
    assert_eq!(s.append(vec![e(1, 1), e(2, 1), e(3, 2)]), Ok(()));
    assert_eq!(s.last_index(), 3);
    assert_eq!(s.term(3), Ok(2));
    let got = s.entries(2, 4).unwrap();
    assert_eq!(got.iter().map(|x| x.index).collect::<Vec<_>>(), vec![2, 3]);
    assert_eq!(s.entries(1, 1).unwrap().len(), 0);
    assert!(matches!(s.entries(1, 5), Err(Error::OutOfRange)));
    assert!(matches!(s.entries(3, 2), Err(Error::OutOfRange)));
}

#[test]
fn append_conflict_truncates_and_overwrites() {
    let mut s = RaftStorage::new();
    s.append(vec![e(1, 1), e(2, 1), e(3, 1)]).unwrap();
    s.append(vec![e(2, 2)]).unwrap();
    assert_eq!(terms(&s), vec![(1, 1), (2, 2)]);
}

#[test]
fn append_rejects_gaps_and_disorder() {
    let mut s = RaftStorage::new();
    s.append(vec![e(1, 1)]).unwrap();
    assert_eq!(s.append(vec![e(3, 1)]), Err(Error::OutOfRange));
    assert_eq!(s.append(vec![e(2, 1), e(4, 1)]), Err(Error::ProtocolViolation));
    assert_eq!(terms(&s), vec![(1, 1)]);
    assert_eq!(s.append(vec![]), Ok(()));
}

#[test]
fn snapshot_compacts_prefix() {
    let mut s = RaftStorage::new();
    s.append(vec![e(1, 1), e(2, 1), e(3, 2), e(4, 2)]).unwrap();
    let snap = Snapshot { last_included_index: 2, last_included_term: 1, state: vec![] };
    assert_eq!(s.save_snapshot(snap), Ok(()));
    assert_eq!(s.first_index(), 3);
    assert_eq!(s.last_index(), 4);
    assert_eq!(s.term(1), Err(Error::Compacted));
    assert_eq!(s.term(2), Ok(1));
    assert!(matches!(s.entries(2, 4), Err(Error::OutOfRange)));
    assert_eq!(terms(&s), vec![(3, 2), (4, 2)]);
    let stale = Snapshot { last_included_index: 1, last_included_term: 1, state: vec![] };
    assert_eq!(s.save_snapshot(stale), Err(Error::Compacted));
    assert_eq!(s.append(vec![e(2, 1)]), Err(Error::Compacted));
}

#[test]
fn snapshot_with_other_term_drops_everything() {
    let mut s = RaftStorage::new();
    s.append(vec![e(1, 1), e(2, 1), e(3, 1)]).unwrap();
    let snap = Snapshot { last_included_index: 2, last_included_term: 5, state: vec![] };
    s.save_snapshot(snap).unwrap();
    assert_eq!(s.last_index(), 2);
    assert_eq!(terms(&s), vec![]);
}

#[test]
fn durability_round_trip() {
    let mut s = RaftStorage::new();
    s.append(vec![e(1, 1), e(2, 1), e(3, 2), e(4, 2), e(5, 3)]).unwrap();
    let hs = HardState { current_term: 3, voted_for: Some(2), commit_index: 4 };
    s.save_hard_state(hs);
    let reloaded = RaftStorage::restore(s.initial_state(), s.snapshot(), s.all_entries()).unwrap();
    assert_eq!(reloaded.initial_state(), hs);
    assert_eq!(terms(&reloaded), terms(&s));
    assert_eq!(reloaded.first_index(), s.first_index());
    assert_eq!(reloaded.last_index(), s.last_index());
}

#[test]
fn restore_rejects_entries_out_of_order() {
    let r = RaftStorage::restore(HardState::initial(), Snapshot::empty(), vec![e(2, 1)]);
    assert!(matches!(r, Err(Error::ProtocolViolation)));
}
