use raft::consensus::{ConsensusModule, ProposalStatus, ProposeError, RaftError, Tick};
use raft::log::LogStore;
use raft::protos::{
    AppendEntriesRequest, Configuration, ConfigurationSnapshot, ConfigChange, LogEntry,
    LogEntryData, Message, MessageBody, Metadata, RequestVoteRequest, RequestVoteResponse,
};
use raft::state::ServerState;
use raft::protos::LogPosition;

fn fresh_meta() -> Metadata {
    Metadata { current_term: 0, voted_for: None, commit_index: 0 }
}

fn snapshot_of(members: Vec<u64>) -> ConfigurationSnapshot {
    ConfigurationSnapshot {
        last_applied: 0,
        data: Configuration { members, learners: Vec::new() },
    }
}

fn noop_entry(index: u64, term: u64) -> LogEntry {
    LogEntry { index, term, data: LogEntryData::Noop }
}

fn is_leader(m: &ConsensusModule) -> bool {
    matches!(m.state, ServerState::Leader(_))
}

fn is_candidate(m: &ConsensusModule) -> bool {
    matches!(m.state, ServerState::Candidate(_))
}

fn is_follower(m: &ConsensusModule) -> bool {
    matches!(m.state, ServerState::Follower(_))
}

#[test]
fn three_node_election() {
    let mut a = ConsensusModule::new(1, fresh_meta(), snapshot_of(vec![1, 2, 3]), LogStore::new(), 0);
    let mut b = ConsensusModule::new(2, fresh_meta(), snapshot_of(vec![1, 2, 3]), LogStore::new(), 0);
    let mut c = ConsensusModule::new(3, fresh_meta(), snapshot_of(vec![1, 2, 3]), LogStore::new(), 0);

    // fire A's cycle after its election timeout surely elapsed
    let mut tick = Tick::empty(900);
    a.cycle(&mut tick);
    assert_eq!(a.meta().current_term, 1);
    assert_eq!(a.meta().voted_for, Some(1));
    assert!(is_candidate(&a));
    assert!(tick.meta);
    assert_eq!(tick.messages.len(), 1);
    let req = match &tick.messages[0] {
        Message { to, body: MessageBody::RequestVote(req) } => {
            let mut sorted = to.clone();
            sorted.sort();
            assert_eq!(sorted, vec![2, 3]);
            *req
        },
        _ => panic!("expected a vote request"),
    };
    assert_eq!(
        req,
        RequestVoteRequest { term: 1, candidate_id: 1, last_log_index: 0, last_log_term: 0 }
    );

    // both B and C grant
    let mut tb = Tick::empty(901);
    let rb = b.request_vote(req, &mut tb).persisted();
    assert!(rb.vote_granted);
    assert_eq!(rb.term, 1);
    assert_eq!(b.meta().voted_for, Some(1));
    let mut tc = Tick::empty(901);
    let rc = c.request_vote(req, &mut tc).persisted();
    assert!(rc.vote_granted);

    // deliver the grants back to A: a majority of 2 out of 3 promotes it
    let mut t2 = Tick::empty(902);
    a.request_vote_callback(2, rb, &mut t2);
    assert!(is_leader(&a));
    // its log had no prior-term tail, so no no-op was appended
    assert_eq!(a.log.entries.len(), 0);
    let mut t3 = Tick::empty(903);
    a.request_vote_callback(3, rc, &mut t3);
    assert!(is_leader(&a));

    // the promotion cycle issued initial heartbeats
    let heartbeat = t2.messages.iter().find(|m| matches!(m.body, MessageBody::AppendEntries(..)));
    let hb = heartbeat.expect("expected an initial heartbeat");
    let mut to = hb.to.clone();
    to.sort();
    assert_eq!(to, vec![2, 3]);
    match &hb.body {
        MessageBody::AppendEntries(req, last) => {
            assert_eq!(req.term, 1);
            assert_eq!(req.leader_id, 1);
            assert_eq!(req.prev_log_index, 0);
            assert_eq!(req.entries.len(), 0);
            assert_eq!(*last, 0);
        },
        _ => unreachable!(),
    }
}

#[test]
fn split_vote_reelects_at_higher_term() {
    // five nodes; A and B both start elections at term 5
    let meta4 = Metadata { current_term: 4, voted_for: None, commit_index: 0 };
    let five = vec![1, 2, 3, 4, 5];
    let mut a = ConsensusModule::new(1, meta4, snapshot_of(five.clone()), LogStore::new(), 0);
    let mut b = ConsensusModule::new(2, meta4, snapshot_of(five.clone()), LogStore::new(), 0);
    let mut ta = Tick::empty(900);
    a.cycle(&mut ta);
    let mut tb = Tick::empty(900);
    b.cycle(&mut tb);
    assert_eq!(a.meta().current_term, 5);
    assert_eq!(b.meta().current_term, 5);

    // C votes for A; D votes for B; E is partitioned
    let req_a = RequestVoteRequest { term: 5, candidate_id: 1, last_log_index: 0, last_log_term: 0 };
    let req_b = RequestVoteRequest { term: 5, candidate_id: 2, last_log_index: 0, last_log_term: 0 };
    let mut c = ConsensusModule::new(3, meta4, snapshot_of(five.clone()), LogStore::new(), 0);
    let mut d = ConsensusModule::new(4, meta4, snapshot_of(five.clone()), LogStore::new(), 0);
    let mut t = Tick::empty(901);
    let rc = c.request_vote(req_a, &mut t).persisted();
    assert!(rc.vote_granted);
    let mut t = Tick::empty(901);
    let rd = d.request_vote(req_b, &mut t).persisted();
    assert!(rd.vote_granted);
    // each candidate also sees the other's (rejected) request
    let mut t = Tick::empty(902);
    let ra_from_b = a.request_vote(req_b, &mut t).persisted();
    assert!(!ra_from_b.vote_granted);
    let mut t = Tick::empty(902);
    let rb_from_a = b.request_vote(req_a, &mut t).persisted();
    assert!(!rb_from_a.vote_granted);

    // A: one grant (C) and one rejection (B); no majority of 3
    let mut t = Tick::empty(903);
    a.request_vote_callback(3, rc, &mut t);
    let mut t = Tick::empty(903);
    a.request_vote_callback(2, rb_from_a, &mut t);
    assert!(is_candidate(&a));
    assert_eq!(a.meta().current_term, 5);

    // its timeout elapses; because a rejection was seen, the term increments
    let mut t = Tick::empty(2000);
    a.cycle(&mut t);
    assert!(is_candidate(&a));
    assert_eq!(a.meta().current_term, 6);
    assert_eq!(a.meta().voted_for, Some(1));
}

#[test]
fn committed_truncation_refusal() {
    // follower with log [(1,1), (2,1), (3,1)] and commit index 2
    let mut log = LogStore::new();
    log.append(noop_entry(1, 1));
    log.append(noop_entry(2, 1));
    log.append(noop_entry(3, 1));
    let meta = Metadata { current_term: 1, voted_for: None, commit_index: 2 };
    let mut f = ConsensusModule::new(2, meta, snapshot_of(vec![1, 2]), log, 0);
    assert_eq!(f.meta().commit_index, 2);

    // a conflicting entry at index 2, which is already committed
    let req = AppendEntriesRequest {
        term: 2,
        leader_id: 1,
        prev_log_index: 1,
        prev_log_term: 1,
        entries: vec![noop_entry(2, 2)],
        leader_commit: 0,
    };
    let mut t = Tick::empty(10);
    let r = f.append_entries(req, &mut t);
    assert_eq!(r.unwrap_err(), RaftError::RefusedCommittedTruncate);
    // the log and the commit index are untouched
    assert_eq!(f.log.entries.len(), 3);
    assert_eq!(f.log.term(2), Some(1));
    assert_eq!(f.meta().commit_index, 2);
}

#[test]
fn proposal_lifecycle_single_node() {
    let mut a = ConsensusModule::new(1, fresh_meta(), snapshot_of(vec![1]), LogStore::new(), 0);
    // the sole member elects itself on the first cycle
    let mut t = Tick::empty(0);
    a.cycle(&mut t);
    assert!(is_leader(&a));
    assert_eq!(a.meta().current_term, 1);

    let mut t = Tick::empty(1);
    let prop = a.propose_command(b"x".to_vec(), &mut t).unwrap();
    assert_eq!(prop.term, 1);
    assert_eq!(prop.index, 1);
    assert!(t.new_entries);
    assert_eq!(a.log.entries.len(), 1);
    assert!(matches!(a.log.entries[0].data, LogEntryData::Command(_)));

    // not yet durable locally: still waiting
    assert!(matches!(a.proposal_status(&prop), ProposalStatus::Pending));
    // the host flushes the log and the next cycle commits
    a.log.set_match_index(1);
    let mut t = Tick::empty(2);
    a.cycle(&mut t);
    assert_eq!(a.meta().commit_index, 1);
    assert!(t.meta);
    assert!(matches!(a.proposal_status(&prop), ProposalStatus::Commited));
}

#[test]
fn config_change_pipelining() {
    // a log whose last entry is an uncommitted AddLearner at index 7
    let mut log = LogStore::new();
    for i in 1..=6u64 {
        log.append(noop_entry(i, 1));
    }
    log.append(LogEntry {
        index: 7,
        term: 1,
        data: LogEntryData::Config(ConfigChange::AddLearner(9)),
    });
    let meta = Metadata { current_term: 1, voted_for: None, commit_index: 0 };
    let mut a = ConsensusModule::new(1, meta, snapshot_of(vec![1, 2, 3]), log, 0);

    // promote A: it elects at term 2 and the other two grant
    let mut t = Tick::empty(900);
    a.cycle(&mut t);
    assert!(is_candidate(&a));
    let grant = RequestVoteResponse { term: 2, vote_granted: true };
    let mut t = Tick::empty(901);
    a.request_vote_callback(2, grant, &mut t);
    assert!(is_leader(&a));
    // it starts its term with an uncommitted tail, so a no-op was appended
    assert_eq!(a.log.entries.len(), 8);

    // a second configuration change must wait for the pending one
    let mut t = Tick::empty(902);
    let r = a.propose_entry(LogEntryData::Config(ConfigChange::AddMember(8)), &mut t);
    match r {
        Err(ProposeError::RetryAfter(p)) => {
            assert_eq!(p.index, 7);
            assert_eq!(p.term, 1);
        },
        other => panic!("expected RetryAfter, got {:?}", other),
    }
    // the log is unchanged by the refused proposal
    assert_eq!(a.log.entries.len(), 8);
}

#[test]
fn stale_leader_rejection() {
    let meta = Metadata { current_term: 5, voted_for: None, commit_index: 0 };
    let mut f = ConsensusModule::new(2, meta, snapshot_of(vec![1, 2]), LogStore::new(), 0);
    let req = AppendEntriesRequest {
        term: 3,
        leader_id: 1,
        prev_log_index: 0,
        prev_log_term: 0,
        entries: Vec::new(),
        leader_commit: 0,
    };
    let mut t = Tick::empty(10);
    let r = f.append_entries(req, &mut t).unwrap();
    assert_eq!(r.inner.term, 5);
    assert!(!r.inner.success);
    assert_eq!(r.inner.last_log_index, None);
    assert!(r.pos.is_none());
    assert_eq!(f.meta().current_term, 5);
    assert!(is_follower(&f));
}

#[test]
fn duplicate_append_entries_is_idempotent() {
    let mut f = ConsensusModule::new(2, fresh_meta(), snapshot_of(vec![1, 2]), LogStore::new(), 0);
    let batch = || AppendEntriesRequest {
        term: 1,
        leader_id: 1,
        prev_log_index: 0,
        prev_log_term: 0,
        entries: vec![noop_entry(1, 1), noop_entry(2, 1)],
        leader_commit: 1,
    };
    let mut t = Tick::empty(10);
    let r1 = f.append_entries(batch(), &mut t).unwrap();
    assert!(r1.inner.success);
    assert_eq!(f.log.entries.len(), 2);
    assert_eq!(f.meta().commit_index, 1);
    assert_eq!(r1.pos.unwrap().index, 2);

    // the identical batch again: a no-op on the log suffix, still a success
    let mut t = Tick::empty(11);
    let r2 = f.append_entries(batch(), &mut t).unwrap();
    assert!(r2.inner.success);
    assert!(!t.new_entries);
    assert_eq!(f.log.entries.len(), 2);
    assert_eq!(f.meta().commit_index, 1);
}

#[test]
fn regrant_vote_same_candidate_is_idempotent() {
    let mut f = ConsensusModule::new(2, fresh_meta(), snapshot_of(vec![1, 2, 3]), LogStore::new(), 0);
    let req = RequestVoteRequest { term: 1, candidate_id: 1, last_log_index: 0, last_log_term: 0 };
    let mut t = Tick::empty(10);
    let r1 = f.request_vote(req, &mut t).persisted();
    assert!(r1.vote_granted);
    assert_eq!(f.meta().voted_for, Some(1));
    let mut t = Tick::empty(11);
    let r2 = f.request_vote(req, &mut t).persisted();
    assert!(r2.vote_granted);
    assert_eq!(f.meta().voted_for, Some(1));
    // but a different candidate in the same term is refused
    let other = RequestVoteRequest { term: 1, candidate_id: 3, last_log_index: 0, last_log_term: 0 };
    let mut t = Tick::empty(12);
    let r3 = f.request_vote(other, &mut t).persisted();
    assert!(!r3.vote_granted);
    assert_eq!(f.meta().voted_for, Some(1));
}

#[test]
fn pre_vote_is_pure_and_repeatable() {
    let mut log = LogStore::new();
    log.append(noop_entry(1, 1));
    let meta = Metadata { current_term: 2, voted_for: Some(3), commit_index: 0 };
    let f = ConsensusModule::new(2, meta, snapshot_of(vec![1, 2, 3]), log, 0);
    let req = RequestVoteRequest { term: 2, candidate_id: 1, last_log_index: 5, last_log_term: 1 };
    let r1 = f.pre_vote(req);
    let r2 = f.pre_vote(req);
    assert_eq!(r1, r2);
    // we voted for 3 this term, so candidate 1 is not granted
    assert!(!r1.vote_granted);
    assert_eq!(f.meta().current_term, 2);
    assert_eq!(f.meta().voted_for, Some(3));
    // a request at a higher term with an up-to-date log would be granted
    let newer = RequestVoteRequest { term: 3, candidate_id: 1, last_log_index: 1, last_log_term: 1 };
    assert!(f.pre_vote(newer).vote_granted);
}

#[test]
fn proposal_status_table() {
    let mut log = LogStore::new();
    log.append(noop_entry(1, 1));
    log.append(noop_entry(2, 2));
    log.append(noop_entry(3, 2));
    let meta = Metadata { current_term: 2, voted_for: None, commit_index: 2 };
    let f = ConsensusModule::new(2, meta, snapshot_of(vec![1, 2]), log, 0);
    // beyond the log: missing
    let missing = LogPosition { term: 2, index: 9 };
    assert!(matches!(f.proposal_status(&missing), ProposalStatus::Missing));
    let missing_term = LogPosition { term: 3, index: 1 };
    assert!(matches!(f.proposal_status(&missing_term), ProposalStatus::Missing));
    // overwritten by a newer term: failed
    let overwritten = LogPosition { term: 1, index: 2 };
    assert!(matches!(f.proposal_status(&overwritten), ProposalStatus::Failed));
    // matching term at a committed index: committed
    let committed = LogPosition { term: 2, index: 2 };
    assert!(matches!(f.proposal_status(&committed), ProposalStatus::Commited));
    // matching term past the commit index: still replicating
    let waiting = LogPosition { term: 2, index: 3 };
    assert!(matches!(f.proposal_status(&waiting), ProposalStatus::Pending));
}

#[test]
fn proposal_status_unavailable_before_log_start() {
    let log = LogStore::with_base(5, 1);
    let meta = Metadata { current_term: 1, voted_for: None, commit_index: 5 };
    let snap = ConfigurationSnapshot {
        last_applied: 5,
        data: Configuration { members: vec![1, 2], learners: Vec::new() },
    };
    let f = ConsensusModule::new(2, meta, snap, log, 0);
    let old = raft::protos::LogPosition { term: 1, index: 2 };
    assert!(matches!(f.proposal_status(&old), ProposalStatus::Unavailable));
}

#[test]
fn malformed_batches_are_rejected() {
    let mut f = ConsensusModule::new(2, fresh_meta(), snapshot_of(vec![1, 2]), LogStore::new(), 0);
    // first entry does not follow the stated previous position
    let gap = AppendEntriesRequest {
        term: 1,
        leader_id: 1,
        prev_log_index: 0,
        prev_log_term: 0,
        entries: vec![noop_entry(2, 1)],
        leader_commit: 0,
    };
    let mut t = Tick::empty(1);
    assert_eq!(f.append_entries(gap, &mut t).unwrap_err(), RaftError::EntryDoesNotFollow);
    // non-consecutive indexes inside the batch
    let unsorted = AppendEntriesRequest {
        term: 1,
        leader_id: 1,
        prev_log_index: 0,
        prev_log_term: 0,
        entries: vec![noop_entry(1, 1), noop_entry(3, 1)],
        leader_commit: 0,
    };
    let mut t = Tick::empty(2);
    assert_eq!(f.append_entries(unsorted, &mut t).unwrap_err(), RaftError::EntriesOutOfOrder);
    // an entry claiming a term beyond the request's own
    let future = AppendEntriesRequest {
        term: 1,
        leader_id: 1,
        prev_log_index: 0,
        prev_log_term: 0,
        entries: vec![noop_entry(1, 2)],
        leader_commit: 0,
    };
    let mut t = Tick::empty(3);
    assert_eq!(f.append_entries(future, &mut t).unwrap_err(), RaftError::EntryFromFutureTerm);
    // nothing was appended by any of them
    assert_eq!(f.log.entries.len(), 0);
}

#[test]
fn request_before_log_start_is_refused() {
    let mut log = LogStore::with_base(5, 1);
    log.append(noop_entry(6, 1));
    let meta = Metadata { current_term: 1, voted_for: None, commit_index: 6 };
    let snap = ConfigurationSnapshot {
        last_applied: 5,
        data: Configuration { members: vec![1, 2], learners: Vec::new() },
    };
    let mut f = ConsensusModule::new(2, meta, snap, log, 0);
    let req = AppendEntriesRequest {
        term: 1,
        leader_id: 1,
        prev_log_index: 3,
        prev_log_term: 1,
        entries: vec![noop_entry(4, 1)],
        leader_commit: 0,
    };
    let mut t = Tick::empty(1);
    assert_eq!(f.append_entries(req, &mut t).unwrap_err(), RaftError::PrevBeforeLogStart);
}

#[test]
fn conflicting_leader_same_term_is_refused() {
    let mut a = ConsensusModule::new(1, fresh_meta(), snapshot_of(vec![1]), LogStore::new(), 0);
    let mut t = Tick::empty(0);
    a.cycle(&mut t);
    assert!(is_leader(&a));
    let req = AppendEntriesRequest {
        term: a.meta().current_term,
        leader_id: 2,
        prev_log_index: 0,
        prev_log_term: 0,
        entries: Vec::new(),
        leader_commit: 0,
    };
    let mut t = Tick::empty(1);
    assert_eq!(a.append_entries(req, &mut t).unwrap_err(), RaftError::ConflictingLeader);
}

#[test]
fn mismatched_prev_asks_for_commit_backoff() {
    // follower's log diverges at the previous position: it reports its
    // commit index so the leader can back off in one step
    let mut log = LogStore::new();
    log.append(noop_entry(1, 1));
    log.append(noop_entry(2, 1));
    let meta = Metadata { current_term: 3, voted_for: None, commit_index: 1 };
    let mut f = ConsensusModule::new(2, meta, snapshot_of(vec![1, 2]), log, 0);
    let req = AppendEntriesRequest {
        term: 3,
        leader_id: 1,
        prev_log_index: 2,
        prev_log_term: 2,
        entries: Vec::new(),
        leader_commit: 0,
    };
    let mut t = Tick::empty(1);
    let r = f.append_entries(req, &mut t).unwrap();
    assert!(!r.inner.success);
    assert_eq!(r.inner.last_log_index, Some(1));
    // beyond the end of the log: it reports its last index
    let req2 = AppendEntriesRequest {
        term: 3,
        leader_id: 1,
        prev_log_index: 7,
        prev_log_term: 1,
        entries: Vec::new(),
        leader_commit: 0,
    };
    let mut t = Tick::empty(2);
    let r2 = f.append_entries(req2, &mut t).unwrap();
    assert!(!r2.inner.success);
    assert_eq!(r2.inner.last_log_index, Some(2));
}

#[test]
fn uncommitted_conflict_is_truncated() {
    // follower has [(1,1), (2,1)] with nothing committed; the leader
    // replaces index 2 with a term-2 entry
    let mut log = LogStore::new();
    log.append(noop_entry(1, 1));
    log.append(noop_entry(2, 1));
    let meta = Metadata { current_term: 2, voted_for: None, commit_index: 1 };
    let mut f = ConsensusModule::new(2, meta, snapshot_of(vec![1, 2]), log, 0);
    let req = AppendEntriesRequest {
        term: 2,
        leader_id: 1,
        prev_log_index: 1,
        prev_log_term: 1,
        entries: vec![noop_entry(2, 2), noop_entry(3, 2)],
        leader_commit: 0,
    };
    let mut t = Tick::empty(1);
    let r = f.append_entries(req, &mut t).unwrap();
    assert!(r.inner.success);
    assert!(t.new_entries);
    assert_eq!(f.log.entries.len(), 3);
    assert_eq!(f.log.term(2), Some(2));
    assert_eq!(f.log.term(3), Some(2));
}

#[test]
fn follower_waits_out_remaining_timeout() {
    let mut f = ConsensusModule::new(2, fresh_meta(), snapshot_of(vec![1, 2, 3]), LogStore::new(), 0);
    let mut t = Tick::empty(100);
    f.cycle(&mut t);
    assert!(is_follower(&f));
    // the follower election timeout is drawn from [400, 800); 100 ms in,
    // between 300 and 700 remain
    let left = t.next_tick.expect("expected a scheduled wakeup");
    assert!((300..700).contains(&left), "remaining timeout out of range: {}", left);
    assert_eq!(f.meta().current_term, 0);
}

#[test]
fn nonmember_waits_idle() {
    // a server outside the voting membership never starts elections
    let mut f = ConsensusModule::new(9, fresh_meta(), snapshot_of(vec![1, 2, 3]), LogStore::new(), 0);
    let mut t = Tick::empty(5000);
    f.cycle(&mut t);
    assert!(is_follower(&f));
    assert_eq!(f.meta().current_term, 0);
    assert_eq!(t.next_tick, Some(1000));
}

#[test]
fn observe_higher_term_demotes_leader() {
    let mut a = ConsensusModule::new(1, fresh_meta(), snapshot_of(vec![1, 2]), LogStore::new(), 0);
    // elect A with B's grant
    let mut t = Tick::empty(900);
    a.cycle(&mut t);
    let grant = RequestVoteResponse { term: 1, vote_granted: true };
    let mut t = Tick::empty(901);
    a.request_vote_callback(2, grant, &mut t);
    assert!(is_leader(&a));
    // a response from a later term makes it a follower again (P5: the term
    // only ever rises)
    let stale = RequestVoteResponse { term: 7, vote_granted: false };
    let mut t = Tick::empty(902);
    a.request_vote_callback(2, stale, &mut t);
    assert!(is_follower(&a));
    assert_eq!(a.meta().current_term, 7);
    assert_eq!(a.meta().voted_for, None);
}

#[test]
fn leader_replicates_proposals_and_commits_on_acks() {
    let mut a = ConsensusModule::new(1, fresh_meta(), snapshot_of(vec![1, 2, 3]), LogStore::new(), 0);
    let mut t = Tick::empty(900);
    a.cycle(&mut t);
    let grant = RequestVoteResponse { term: 1, vote_granted: true };
    let mut t = Tick::empty(901);
    a.request_vote_callback(2, grant, &mut t);
    assert!(is_leader(&a));
    // the followers acknowledge the initial heartbeats, clearing the
    // in-flight flags
    let hb_ack = raft::protos::AppendEntriesResponse { term: 1, success: true, last_log_index: None };
    let mut t = Tick::empty(901);
    a.append_entries_callback(2, 0, hb_ack, &mut t);
    let mut t = Tick::empty(901);
    a.append_entries_callback(3, 0, hb_ack, &mut t);

    let mut t = Tick::empty(902);
    let prop = a.propose_command(b"hello".to_vec(), &mut t).unwrap();
    assert_eq!(prop.index, 1);
    // the proposal went out to the other servers
    let msg = t.messages.iter().find(|m| match &m.body {
        MessageBody::AppendEntries(req, _) => !req.entries.is_empty(),
        _ => false,
    });
    let msg = msg.expect("expected a replication message");
    match &msg.body {
        MessageBody::AppendEntries(req, last) => {
            assert_eq!(req.entries.len(), 1);
            assert_eq!(req.entries[0].index, 1);
            assert_eq!(req.entries[0].term, 1);
            assert_eq!(*last, 1);
        },
        _ => unreachable!(),
    }

    // local flush plus one follower ack make a majority of 2 out of 3
    a.log.set_match_index(1);
    let ack = raft::protos::AppendEntriesResponse { term: 1, success: true, last_log_index: None };
    let mut t = Tick::empty(903);
    a.append_entries_callback(2, 1, ack, &mut t);
    assert_eq!(a.meta().commit_index, 1);
    assert!(matches!(a.proposal_status(&prop), ProposalStatus::Commited));
}

#[test]
fn failed_ack_rolls_next_index_back() {
    let mut log = LogStore::new();
    log.append(noop_entry(1, 1));
    log.append(noop_entry(2, 1));
    let meta = Metadata { current_term: 1, voted_for: None, commit_index: 0 };
    let mut a = ConsensusModule::new(1, meta, snapshot_of(vec![1, 2]), log, 0);
    let mut t = Tick::empty(900);
    a.cycle(&mut t);
    let grant = RequestVoteResponse { term: 2, vote_granted: true };
    let mut t = Tick::empty(901);
    a.request_vote_callback(2, grant, &mut t);
    assert!(is_leader(&a));
    // the follower rejects and points at its last index 0; the leader
    // re-sends from the start of its log on the next cycle
    let nack = raft::protos::AppendEntriesResponse {
        term: 2,
        success: false,
        last_log_index: Some(0),
    };
    let mut t = Tick::empty(1000);
    a.append_entries_callback(2, 3, nack, &mut t);
    let resend = t.messages.iter().find(|m| matches!(m.body, MessageBody::AppendEntries(..)));
    let resend = resend.expect("expected a resend");
    match &resend.body {
        MessageBody::AppendEntries(req, _) => {
            assert_eq!(req.prev_log_index, 0);
            assert_eq!(req.entries.len(), 3);
        },
        _ => unreachable!(),
    }
}

#[test]
fn timeout_now_starts_election() {
    let mut f = ConsensusModule::new(2, fresh_meta(), snapshot_of(vec![1, 2, 3]), LogStore::new(), 0);
    let mut t = Tick::empty(5);
    let r = f.timeout_now(raft::protos::TimeoutNow {}, &mut t);
    assert!(r.is_ok());
    assert!(is_candidate(&f));
    assert_eq!(f.meta().current_term, 1);
    assert_eq!(f.meta().voted_for, Some(2));
    assert_eq!(t.messages.len(), 1);
}

#[test]
fn commit_index_is_monotonic_across_ticks() {
    // P6 on a concrete run: the commit index never decreases
    let mut f = ConsensusModule::new(2, fresh_meta(), snapshot_of(vec![1, 2]), LogStore::new(), 0);
    let mut seen = vec![f.meta().commit_index];
    let batch = AppendEntriesRequest {
        term: 1,
        leader_id: 1,
        prev_log_index: 0,
        prev_log_term: 0,
        entries: vec![noop_entry(1, 1), noop_entry(2, 1)],
        leader_commit: 2,
    };
    let mut t = Tick::empty(1);
    f.append_entries(batch, &mut t).unwrap();
    seen.push(f.meta().commit_index);
    // a duplicate of an older request with a smaller leader commit
    let old_batch = AppendEntriesRequest {
        term: 1,
        leader_id: 1,
        prev_log_index: 0,
        prev_log_term: 0,
        entries: vec![noop_entry(1, 1)],
        leader_commit: 1,
    };
    let mut t = Tick::empty(2);
    f.append_entries(old_batch, &mut t).unwrap();
    seen.push(f.meta().commit_index);
    for w in seen.windows(2) {
        assert!(w[0] <= w[1]);
    }
    assert_eq!(f.meta().commit_index, 2);
}

#[test]
fn construction_reconciles_inputs() {
    // a newer term in the log raises the current term and clears the vote
    let mut log = LogStore::new();
    log.append(noop_entry(1, 4));
    let meta = Metadata { current_term: 2, voted_for: Some(3), commit_index: 0 };
    let m = ConsensusModule::new(2, meta, snapshot_of(vec![1, 2]), log, 0);
    assert_eq!(m.meta().current_term, 4);
    assert_eq!(m.meta().voted_for, None);

    // a newer snapshot raises the commit index
    let snap = ConfigurationSnapshot {
        last_applied: 3,
        data: Configuration { members: vec![1, 2], learners: Vec::new() },
    };
    let mut log = LogStore::new();
    log.append(noop_entry(1, 1));
    log.append(noop_entry(2, 1));
    log.append(noop_entry(3, 1));
    let meta = Metadata { current_term: 1, voted_for: None, commit_index: 1 };
    let m = ConsensusModule::new(2, meta, snap, log, 0);
    assert_eq!(m.meta().commit_index, 3);
}

#[test]
fn config_snapshot_reports_committed_state() {
    let mut a = ConsensusModule::new(1, fresh_meta(), snapshot_of(vec![1]), LogStore::new(), 0);
    let mut t = Tick::empty(0);
    a.cycle(&mut t);
    assert!(is_leader(&a));
    // add a learner; once committed the snapshot reflects it
    let mut t = Tick::empty(1);
    a.propose_entry(LogEntryData::Config(ConfigChange::AddLearner(7)), &mut t).unwrap();
    a.log.set_match_index(1);
    let mut t = Tick::empty(2);
    a.cycle(&mut t);
    assert!(t.config);
    let snap = a.config_snapshot();
    assert_eq!(snap.last_applied, 1);
    assert_eq!(snap.data.learners, vec![7]);
}

#[test]
fn entries_below_compaction_base_cannot_splice() {
    // a compacted, empty log: entries addressed below its base are answered
    // with a gap error rather than spliced in
    let log = LogStore::with_base(5, 1);
    let meta = Metadata { current_term: 1, voted_for: None, commit_index: 5 };
    let snap = ConfigurationSnapshot {
        last_applied: 5,
        data: Configuration { members: vec![1, 2], learners: Vec::new() },
    };
    let mut f = ConsensusModule::new(2, meta, snap, log, 0);
    let req = AppendEntriesRequest {
        term: 1,
        leader_id: 1,
        prev_log_index: 0,
        prev_log_term: 0,
        entries: vec![noop_entry(1, 1)],
        leader_commit: 0,
    };
    let mut t = Tick::empty(1);
    assert_eq!(f.append_entries(req, &mut t).unwrap_err(), RaftError::AppendGap);
}

#[test]
fn learners_receive_replication_but_cast_no_votes() {
    // two members and one learner: the learner's ack never counts towards
    // commitment, but it is sent entries
    let snap = ConfigurationSnapshot {
        last_applied: 0,
        data: Configuration { members: vec![1, 2], learners: vec![5] },
    };
    let mut a = ConsensusModule::new(1, fresh_meta(), snap, LogStore::new(), 0);
    let mut t = Tick::empty(900);
    a.cycle(&mut t);
    // the vote request goes to the other member only, never the learner
    match &t.messages[0] {
        Message { to, body: MessageBody::RequestVote(_) } => assert_eq!(to, &vec![2]),
        _ => panic!("expected a vote request"),
    }
    let grant = RequestVoteResponse { term: 1, vote_granted: true };
    let mut t = Tick::empty(901);
    a.request_vote_callback(2, grant, &mut t);
    assert!(is_leader(&a));
    // the initial heartbeats cover the learner too
    let recipients: Vec<u64> = t
        .messages
        .iter()
        .filter(|m| matches!(m.body, MessageBody::AppendEntries(..)))
        .flat_map(|m| m.to.clone())
        .collect();
    assert!(recipients.contains(&2));
    assert!(recipients.contains(&5));

    // a proposal acknowledged only by the learner does not commit
    let mut t = Tick::empty(902);
    let hb_ack = raft::protos::AppendEntriesResponse { term: 1, success: true, last_log_index: None };
    a.append_entries_callback(5, 0, hb_ack, &mut t);
    let mut t = Tick::empty(903);
    let prop = a.propose_command(b"x".to_vec(), &mut t).unwrap();
    let mut t = Tick::empty(904);
    a.append_entries_callback(5, 1, hb_ack, &mut t);
    assert_eq!(a.meta().commit_index, 0);
    // while the other member's ack (plus the local flush) commits it
    a.log.set_match_index(1);
    let mut t = Tick::empty(905);
    a.append_entries_callback(2, 1, hb_ack, &mut t);
    assert_eq!(a.meta().commit_index, 1);
    assert!(matches!(a.proposal_status(&prop), ProposalStatus::Commited));
}

#[test]
fn proposals_to_followers_carry_a_leader_hint() {
    let mut f = ConsensusModule::new(2, fresh_meta(), snapshot_of(vec![1, 2]), LogStore::new(), 0);
    // with no known leader and no vote cast, there is no hint
    let mut t = Tick::empty(1);
    match f.propose_noop(&mut t) {
        Err(ProposeError::NotLeader { leader_hint }) => assert_eq!(leader_hint, None),
        other => panic!("expected NotLeader, got {:?}", other),
    }
    // after accepting a heartbeat, the hint names the leader
    let hb = AppendEntriesRequest {
        term: 1,
        leader_id: 1,
        prev_log_index: 0,
        prev_log_term: 0,
        entries: Vec::new(),
        leader_commit: 0,
    };
    let mut t = Tick::empty(2);
    assert!(f.append_entries(hb, &mut t).unwrap().inner.success);
    let mut t = Tick::empty(3);
    match f.propose_command(b"y".to_vec(), &mut t) {
        Err(ProposeError::NotLeader { leader_hint }) => assert_eq!(leader_hint, Some(1)),
        other => panic!("expected NotLeader, got {:?}", other),
    }
}

#[test]
fn noresponse_clears_the_in_flight_flag() {
    let mut a = ConsensusModule::new(1, fresh_meta(), snapshot_of(vec![1, 2]), LogStore::new(), 0);
    let mut t = Tick::empty(900);
    a.cycle(&mut t);
    let grant = RequestVoteResponse { term: 1, vote_granted: true };
    let mut t = Tick::empty(901);
    a.request_vote_callback(2, grant, &mut t);
    assert!(is_leader(&a));
    // the initial heartbeat to 2 is in flight: even a heartbeat interval
    // later, nothing is resent while the request counts as outstanding
    let mut t = Tick::empty(1100);
    a.cycle(&mut t);
    assert!(t.messages.is_empty());
    // the request timed out; with the flag cleared, the next cycle resends
    let mut t = Tick::empty(1101);
    a.append_entries_noresponse(2, &mut t);
    let mut t = Tick::empty(1102);
    a.cycle(&mut t);
    let resent = t.messages.iter().any(|m| matches!(m.body, MessageBody::AppendEntries(..)));
    assert!(resent);
}

#[test]
fn pending_proposal_becomes_committed() {
    // the in-between state of a proposal is visible as Pending before the
    // majority confirms it
    let mut a = ConsensusModule::new(1, fresh_meta(), snapshot_of(vec![1, 2, 3]), LogStore::new(), 0);
    let mut t = Tick::empty(900);
    a.cycle(&mut t);
    let grant = RequestVoteResponse { term: 1, vote_granted: true };
    let mut t = Tick::empty(901);
    a.request_vote_callback(2, grant, &mut t);
    assert!(is_leader(&a));
    let mut t = Tick::empty(902);
    let prop = a.propose_command(b"v".to_vec(), &mut t).unwrap();
    assert!(matches!(a.proposal_status(&prop), ProposalStatus::Pending));
    a.log.set_match_index(1);
    let ack = raft::protos::AppendEntriesResponse { term: 1, success: true, last_log_index: None };
    let mut t = Tick::empty(903);
    a.append_entries_callback(2, 1, ack, &mut t);
    assert!(matches!(a.proposal_status(&prop), ProposalStatus::Commited));
}
