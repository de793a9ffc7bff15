use raft::config_state::ConfigurationStateMachine;
use raft::protos::{
    ConfigChange, Configuration, ConfigurationSnapshot, LogEntry, LogEntryData,
};

fn config(members: Vec<u64>, learners: Vec<u64>) -> Configuration {
    Configuration { members, learners }
}

fn config_entry(index: u64, term: u64, change: ConfigChange) -> LogEntry {
    LogEntry { index, term, data: LogEntryData::Config(change) }
}

#[test]
fn defaults_are_empty() {
    let m: raft::protos::Metadata = Default::default();
    assert_eq!(m.current_term, 0);
    assert_eq!(m.voted_for, None);
    assert_eq!(m.commit_index, 0);
    let c: Configuration = Default::default();
    assert!(c.members.is_empty());
    assert!(c.learners.is_empty());
    let s: ConfigurationSnapshot = Default::default();
    assert_eq!(s.last_applied, 0);
    assert!(s.data.members.is_empty());
}

#[test]
fn apply_changes_membership() {
    let mut c = config(vec![1, 2], vec![3]);
    c.apply(&ConfigChange::AddMember(3));
    assert!(c.contains_member(3));
    assert!(!c.contains_learner(3));
    c.apply(&ConfigChange::AddLearner(4));
    assert!(c.contains_learner(4));
    assert!(!c.contains_member(4));
    c.apply(&ConfigChange::RemoveServer(1));
    assert!(!c.contains_member(1));
    c.apply(&ConfigChange::RemoveServer(4));
    assert!(!c.contains_learner(4));
    // the iterator lists members first, then learners
    let mut all = c.iter();
    all.sort();
    assert_eq!(all, vec![2, 3]);
}

#[test]
fn state_machine_tracks_pending_changes() {
    let snap = ConfigurationSnapshot { last_applied: 0, data: config(vec![1, 2, 3], vec![]) };
    let mut sm = ConfigurationStateMachine::from_snapshot(snap);
    assert_eq!(sm.pending_last_change(), None);

    // an uncommitted change is pending and already effective in `value`
    sm.apply(&config_entry(1, 1, ConfigChange::AddLearner(9)), 0);
    assert_eq!(sm.pending_last_change(), Some(1));
    assert!(sm.value.contains_learner(9));
    assert!(!sm.committed.data.contains_learner(9));

    // committing folds it into the snapshot
    let changed = sm.commit(1);
    assert!(changed);
    assert_eq!(sm.pending_last_change(), None);
    assert_eq!(sm.committed.last_applied, 1);
    assert!(sm.committed.data.contains_learner(9));
    // committing again reports nothing new
    assert!(!sm.commit(5));
}

#[test]
fn revert_restores_prior_configuration() {
    let snap = ConfigurationSnapshot { last_applied: 0, data: config(vec![1, 2, 3], vec![]) };
    let mut sm = ConfigurationStateMachine::from_snapshot(snap);
    sm.apply(&config_entry(1, 1, ConfigChange::AddLearner(9)), 0);
    sm.apply(&config_entry(2, 1, ConfigChange::AddMember(9)), 0);
    assert!(sm.value.contains_member(9));
    // a truncation at index 2 undoes the promotion but keeps the learner
    sm.revert(2);
    assert!(!sm.value.contains_member(9));
    assert!(sm.value.contains_learner(9));
    assert_eq!(sm.pending_last_change(), Some(1));
    assert_eq!(sm.last_applied, 1);
    // a truncation at index 1 undoes everything
    sm.revert(1);
    assert!(!sm.value.contains_learner(9));
    assert_eq!(sm.pending_last_change(), None);
}

#[test]
fn noop_and_command_entries_only_advance_the_cursor() {
    let snap = ConfigurationSnapshot { last_applied: 0, data: config(vec![1], vec![]) };
    let mut sm = ConfigurationStateMachine::from_snapshot(snap);
    sm.apply(&LogEntry { index: 1, term: 1, data: LogEntryData::Noop }, 0);
    sm.apply(&LogEntry { index: 2, term: 1, data: LogEntryData::Command(b"x".to_vec()) }, 0);
    assert_eq!(sm.last_applied, 2);
    assert_eq!(sm.pending_last_change(), None);
    assert!(sm.value.contains_member(1));
}

#[test]
fn adding_a_member_as_learner_changes_nothing() {
    let snap = ConfigurationSnapshot { last_applied: 0, data: config(vec![1, 2], vec![]) };
    let mut sm = ConfigurationStateMachine::from_snapshot(snap);
    sm.apply(&config_entry(1, 1, ConfigChange::AddLearner(1)), 0);
    assert!(sm.value.contains_member(1));
    assert!(!sm.value.contains_learner(1));
    assert_eq!(sm.last_applied, 1);
}
