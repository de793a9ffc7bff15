//! The consensus module: a deterministic transition function implementing
//! leader election, log replication, commitment, and single-server
//! membership changes.
//!
//! Every handler takes `&mut self` and a mutable [`Tick`] seeded with the
//! current time; it mutates the in-memory state and accumulates required side
//! effects into the `Tick`.  No handler performs I/O.

use vstd::prelude::*;
use crate::protos::{
    clone_entry, AppendEntriesRequest, AppendEntriesResponse, ConfigChange, ConfigurationSnapshot,
    ConfigurationSnapshotRef, EntryDataModel, LogEntry, LogEntryData, LogIndex, LogPosition,
    Message, MessageBody, Metadata, RequestVoteRequest, RequestVoteResponse, ServerId, Term,
    TimeoutNow,
};
use crate::log::LogStore;
use crate::state::{
    ServerCandidateState, ServerFollowerState, ServerLeaderState, ServerProgress, ServerState,
};
use crate::config_state::ConfigurationStateMachine;
use crate::constraint::MatchConstraint;

verus! {

/// Lower bound (inclusive), in milliseconds, of the randomized span after
/// which a follower without a heartbeat becomes a candidate.
pub const ELECTION_TIMEOUT_MIN: u64 = 400;

/// Upper bound (exclusive) of the election timeout span, in milliseconds.
pub const ELECTION_TIMEOUT_MAX: u64 = 800;

/// If the leader sends nothing else for this many milliseconds, it sends an
/// empty heartbeat to all followers.
pub const HEARTBEAT_TIMEOUT: u64 = 150;

/// Identifies an entry that the leader accepted: its log position.
pub type Proposal = LogPosition;

/// On success, the entry has been accepted and may eventually be committed
/// with the given proposal.
pub type ProposeResult = Result<Proposal, ProposeError>;

/// Why a proposal was not accepted.
#[derive(Clone, Copy, Debug, PartialEq, Eq, Structural)]
pub enum ProposeError {
    /// The entry cannot currently be processed and should be retried once
    /// the given proposal has been resolved.
    RetryAfter(Proposal),

    /// The entry can't be proposed by this server because we are not the
    /// current leader.
    NotLeader { leader_hint: Option<ServerId> },
}

/// Protocol violations reported by `append_entries` and friends; the host
/// should close the offending connection.  The module's own state stays
/// consistent.
#[derive(Clone, Copy, Debug, PartialEq, Eq, Structural)]
pub enum RaftError {
    /// An append-entries request from a different leader in our own term.
    ConflictingLeader,

    /// Still a candidate while handling a request in our own term.
    UnexpectedCandidate,

    /// The first entry of the batch does not follow the stated previous
    /// position.
    EntryDoesNotFollow,

    /// The batch's entries are unsorted, duplicated, or inconsistent.
    EntriesOutOfOrder,

    /// The batch holds an entry from a term later than the request's own.
    /// No correct leader distributes entries from beyond its own term; the
    /// check keeps every accepted log entry's term at or below the current
    /// term.
    EntryFromFutureTerm,

    /// The stated previous position is from before the start of our log.
    PrevBeforeLogStart,

    /// The request would truncate entries we already committed.
    RefusedCommittedTruncate,

    /// The first new entry would not land immediately after our log.
    AppendGap,
}

/// The status of a previously initiated proposal.
#[derive(Clone, Copy, Debug, PartialEq, Eq, Structural)]
pub enum ProposalStatus {
    /// The proposal has been safely replicated and should get applied to the
    /// state machine soon.
    Commited,

    /// The proposal has been abandoned and will never be committed;
    /// typically another leader took over before it was fully replicated.
    Failed,

    /// The proposal is still pending replication.
    Pending,

    /// We don't know anything about this proposal right now (it was likely
    /// made on the leader and checked on a follower).
    Missing,

    /// The status is permanently unavailable: the proposal predates the
    /// start of our log.
    Unavailable,
}

/// All external side effects requested by the consensus module during a
/// single operation.  The host persists what is marked dirty, sends the
/// messages, and reschedules its timer per `next_tick`.
#[derive(Debug)]
pub struct Tick {
    /// The time, in milliseconds of the host's clock, at which this tick
    /// happens.
    pub time: u64,

    /// The metadata changed and must be persisted.
    pub meta: bool,

    /// The committed configuration snapshot changed and may be persisted.
    pub config: bool,

    /// New entries were appended to the log and must be persisted.
    pub new_entries: bool,

    /// Messages that need to be sent out.
    pub messages: Vec<Message>,

    /// If no other event occurs, when the next tick should occur.
    pub next_tick: Option<u64>,
}

impl Tick {
    /// A fresh tick at the given time, with no side effects recorded yet.
    pub fn empty(now: u64) -> (r: Self)
        ensures
            r.time == now,
            !r.meta,
            !r.config,
            !r.new_entries,
            r.messages@.len() == 0,
            r.next_tick is None,
    {
        Tick {
            time: now,
            meta: false,
            config: false,
            new_entries: false,
            messages: Vec::new(),
            next_tick: None,
        }
    }

    /// Marks the metadata dirty.
    pub fn write_meta(&mut self)
        ensures
            *final(self) == (Tick { meta: true, ..*old(self) }),
    {
        self.meta = true;
    }

    /// Marks the configuration snapshot persistable.
    pub fn write_config(&mut self)
        ensures
            *final(self) == (Tick { config: true, ..*old(self) }),
    {
        self.config = true;
    }

    /// Queues one outbound message.
    pub fn send(&mut self, msg: Message)
        ensures
            final(self).messages@ == old(self).messages@.push(msg),
            final(self).time == old(self).time,
            final(self).meta == old(self).meta,
            final(self).config == old(self).config,
            final(self).new_entries == old(self).new_entries,
            final(self).next_tick == old(self).next_tick,
    {
        self.messages.push(msg);
    }
}

/// Milliseconds elapsed from `since` to `now`, zero when the clock moved
/// backwards.
pub open spec fn elapsed_ms(now: u64, since: u64) -> int {
    if now >= since {
        now - since
    } else {
        0
    }
}

/// How one tick may evolve inside a handler: recorded side effects are never
/// retracted and the time stands still.
pub open spec fn tick_extends(pre: Tick, post: Tick) -> bool {
    &&& post.time == pre.time
    &&& (pre.meta ==> post.meta)
    &&& (pre.config ==> post.config)
    &&& (pre.new_entries ==> post.new_entries)
    &&& pre.messages@.len() <= post.messages@.len()
    &&& forall|k: int| 0 <= k < pre.messages@.len() ==> post.messages@[k] == pre.messages@[k]
}

/// Wraps a response that must not be transmitted before the current metadata
/// has been made durable: the host calls `persisted()` only after the write.
pub struct MustPersistMetadata<T> {
    inner: T,
}

impl<T> MustPersistMetadata<T> {
    /// Wraps a value pending the durability barrier.
    pub fn new(inner: T) -> (r: Self)
        ensures
            r.view_inner() == inner,
    {
        MustPersistMetadata { inner }
    }

    /// The wrapped value, as specification-level data.
    pub closed spec fn view_inner(&self) -> T {
        self.inner
    }

    /// Acknowledges that the metadata was persisted and yields the response.
    pub fn persisted(self) -> (r: T)
        ensures
            r == self.view_inner(),
    {
        self.inner
    }
}

/// Relies on `rand::random_range` (uniform over the half-open range): every
/// outcome lies within the requested bounds.
#[verifier::external_body]
fn new_election_timeout() -> (r: u64)
    ensures
        ELECTION_TIMEOUT_MIN <= r < ELECTION_TIMEOUT_MAX,
{
    rand::random_range(ELECTION_TIMEOUT_MIN..ELECTION_TIMEOUT_MAX)
}

/// The consensus state of one server.
#[derive(Debug)]
pub struct ConsensusModule {
    /// Id of the server this module represents.
    pub id: ServerId,

    /// The persistent metadata: current term, voted-for, commit index.
    pub meta: Metadata,

    /// The currently active configuration of the cluster.
    pub config: ConfigurationStateMachine,

    /// The in-memory view of the log.
    pub log: LogStore,

    /// Role-specific volatile state.
    pub state: ServerState,
}

impl ConsensusModule {
    /// True when this server may stand for election: its log reaches its
    /// commit index.  A restarted leader that committed entries it no longer
    /// holds must resync before leading again.
    pub open spec fn can_be_leader_spec(&self) -> bool {
        self.log.spec_last_index() >= self.meta.commit_index
    }

    /// True when this server is the single voting member of the cluster.
    pub open spec fn solo_member(&self) -> bool {
        self.config.value.members@.len() == 1 && self.config.value.is_member(self.id)
    }

    /// The one state this module can never leave by itself: the single
    /// voting member of its cluster with a log behind its own commit index.
    /// Handlers require its absence; the cluster needs operator intervention
    /// there.
    pub open spec fn not_solo_corrupt(&self) -> bool {
        !(self.solo_member() && !self.can_be_leader_spec() && self.state is Follower)
    }

    /// Well-formedness of everything but the role-specific state.
    pub open spec fn base_inv(&self) -> bool {
        &&& self.log.wf()
        &&& self.log.spec_last_term() <= self.meta.current_term
        &&& self.meta.commit_index >= self.log.prev_index
        &&& self.config.inv()
        &&& self.config.committed.last_applied >= self.log.prev_index
        &&& self.config.committed.last_applied <= self.meta.commit_index
        &&& forall|k: int|
            0 <= k < self.config.pending@.len() ==> (#[trigger] self.config.pending@[k]).index
                <= self.log.spec_last_index()
    }

    /// Well-formedness of the role-specific state.
    pub open spec fn role_inv(&self) -> bool {
        match self.state {
            ServerState::Follower(_) => true,
            ServerState::Candidate(c) => {
                &&& c.wf()
                &&& !c.votes_received@.contains(self.id)
                &&& self.meta.voted_for == Some(self.id)
                &&& self.meta.current_term >= 1
                &&& self.meta.commit_index <= self.log.spec_last_index()
            },
            ServerState::Leader(l) => {
                &&& l.wf()
                &&& forall|k: int|
                    0 <= k < l.servers@.len() ==> (#[trigger] l.servers@[k]).1.next_index
                        > self.log.prev_index
                &&& forall|k: int|
                    0 <= k < l.servers@.len() ==> (#[trigger] l.servers@[k]).1.next_index
                        <= self.log.spec_last_index() + 1
                &&& self.meta.voted_for == Some(self.id)
                &&& self.meta.current_term >= 1
                &&& self.meta.commit_index <= self.log.spec_last_index()
            },
        }
    }

    /// Well-formedness of the whole module.
    pub open spec fn inv(&self) -> bool {
        self.base_inv() && self.role_inv()
    }

    /// Every entry at or below the commit index survives unchanged: nothing
    /// a handler does truncates committed data.
    pub open spec fn committed_prefix_preserved(pre: &Self, post: &Self) -> bool {
        forall|i: int|
            0 < i <= pre.meta.commit_index && pre.log.has_entry(i) ==> post.log.has_entry(i)
                && post.log.spec_entry_at(i) == pre.log.spec_entry_at(i)
    }

    /// The log only grew: every old entry is still there, unchanged.
    pub open spec fn log_is_extension(pre: &Self, post: &Self) -> bool {
        &&& post.log.spec_last_index() >= pre.log.spec_last_index()
        &&& forall|i: int|
            pre.log.has_entry(i) ==> post.log.has_entry(i) && post.log.spec_entry_at(i)
                == pre.log.spec_entry_at(i)
    }

    /// What every handler guarantees of one step: the current term and the
    /// commit index never decrease, the compaction base is untouched, and
    /// committed entries survive unchanged.
    pub open spec fn step_safe(pre: &Self, post: &Self) -> bool {
        &&& post.id == pre.id
        &&& post.meta.current_term >= pre.meta.current_term
        &&& post.meta.commit_index >= pre.meta.commit_index
        &&& post.log.prev_index == pre.log.prev_index
        &&& post.log.prev_term == pre.log.prev_term
        &&& Self::committed_prefix_preserved(pre, post)
    }

    /// Whether the candidate's log described by `req` is at least as
    /// up-to-date as ours: a higher last term, or an equal last term and an
    /// index at least as far along.
    pub open spec fn up_to_date(&self, req: RequestVoteRequest) -> bool {
        ||| req.last_log_term > self.log.spec_last_term()
        ||| (req.last_log_term == self.log.spec_last_term() && req.last_log_index
            >= self.log.spec_last_index())
    }

    /// Exactly when a vote request would be granted by the current state:
    /// the request's term is not behind ours, the candidate's log is at
    /// least as up-to-date, and we have not already voted for someone else
    /// this term.
    pub open spec fn pre_vote_grant(&self, req: RequestVoteRequest) -> bool {
        &&& req.term >= self.meta.current_term
        &&& self.up_to_date(req)
        &&& (req.term > self.meta.current_term || match self.meta.voted_for {
            Some(id) => id == req.candidate_id,
            None => true,
        })
    }

    /// The vote count needed to win elections or commit entries: a strict
    /// majority of the voting members, unreachable in an empty cluster.
    pub open spec fn spec_majority(&self) -> int {
        if self.config.value.members@.len() == 0 {
            usize::MAX as int
        } else {
            self.config.value.members@.len() as int / 2 + 1
        }
    }

    /// The status [`ConsensusModule::proposal_status`] reports, as a
    /// function of the log, the commit index, and the proposal.
    ///
    /// Open design point: an entry whose log term equals the proposal's but
    /// which sits above the commit index is reported `Pending` here, reading
    /// it as still replicating.  A more conservative table could report
    /// `Failed` for it, since a newer leader may yet truncate it; a caller
    /// that treats `Pending` as "retry later" is correct either way.
    pub open spec fn spec_proposal_status(&self, prop: LogPosition) -> ProposalStatus {
        if prop.term > self.log.spec_last_term() || prop.index > self.log.spec_last_index() {
            ProposalStatus::Missing
        } else {
            match self.log.spec_term_at(prop.index as int) {
                None => ProposalStatus::Unavailable,
                Some(t) => {
                    if t > prop.term {
                        ProposalStatus::Failed
                    } else if t < prop.term {
                        if self.meta.commit_index >= prop.index {
                            ProposalStatus::Failed
                        } else {
                            ProposalStatus::Missing
                        }
                    } else {
                        if self.meta.commit_index >= prop.index {
                            ProposalStatus::Commited
                        } else {
                            ProposalStatus::Pending
                        }
                    }
                },
            }
        }
    }

    /// This server's id.
    pub fn id(&self) -> (r: ServerId)
        ensures
            r == self.id,
    {
        self.id
    }

    /// The current persistent metadata.
    pub fn meta(&self) -> (r: &Metadata)
        ensures
            r == &self.meta,
    {
        &self.meta
    }

    /// The latest committed configuration snapshot available in memory; this
    /// says nothing about what is on disk right now.
    pub fn config_snapshot(&self) -> (r: ConfigurationSnapshotRef<'_>)
        ensures
            r.last_applied == self.config.committed.last_applied,
            r.data == &self.config.committed.data,
    {
        self.config.snapshot()
    }

    /// True when this server may stand for election (see
    /// [`ConsensusModule::can_be_leader_spec`]).
    fn can_be_leader(&self) -> (r: bool)
        requires
            self.inv(),
        ensures
            r == self.can_be_leader_spec(),
    {
        let last = self.prev_plus_len();
        last >= self.meta.commit_index
    }

    /// The last log index as a plain integer.
    fn prev_plus_len(&self) -> (r: u64)
        requires
            self.log.wf(),
        ensures
            r == self.log.spec_last_index(),
    {
        self.log.prev_index + self.log.entries.len() as u64
    }

    /// Number of votes required to get anything done; at least one, and
    /// unreachable in an empty cluster so that a bootstrap window cannot
    /// elect anyone by accident.
    fn majority_size(&self) -> (r: usize)
        ensures
            r == self.spec_majority(),
    {
        if self.config.value.members.len() == 0 {
            return usize::MAX;
        }
        (self.config.value.members.len() / 2) + 1
    }

    /// Checks whether a vote request would be granted by the current server,
    /// without mutating any state: grant iff the request's term is not
    /// behind ours, the candidate's log is at least as up-to-date as ours,
    /// and we have not voted for a different candidate in the same term.
    ///
    /// Calling this twice with the same request gives the same answer: the
    /// result is a function of `self` and `req` alone.
    pub fn pre_vote(&self, req: RequestVoteRequest) -> (r: RequestVoteResponse)
        requires
            self.inv(),
        ensures
            r.term == self.meta.current_term,
            r.vote_granted == self.pre_vote_grant(req),
    {
        let granted = {
            if req.term < self.meta.current_term {
                false
            } else {
                let last_log_index = self.prev_plus_len();
                let last_log_term = match self.log.term(last_log_index) {
                    Some(t) => t,
                    None => 0,  // unreachable: the last index always has a term
                };
                proof {
                    assert(self.log.spec_term_at(self.log.spec_last_index()) == Some(
                        self.log.spec_last_term(),
                    ));
                }
                let up_to_date = req.last_log_term > last_log_term || (req.last_log_term
                    == last_log_term && req.last_log_index >= last_log_index);
                if !up_to_date {
                    false
                } else if req.term > self.meta.current_term {
                    true
                } else {
                    match self.meta.voted_for {
                        Some(id) => id == req.candidate_id,
                        None => true,
                    }
                }
            }
        };
        RequestVoteResponse { term: self.meta.current_term, vote_granted: granted }
    }

    /// Checks the progress of a previously initiated proposal against the
    /// local log and commit index, per the table in
    /// [`ConsensusModule::spec_proposal_status`].
    pub fn proposal_status(&self, prop: &Proposal) -> (r: ProposalStatus)
        requires
            self.inv(),
        ensures
            r == self.spec_proposal_status(*prop),
    {
        let last_log_index = self.prev_plus_len();
        let last_log_term = match self.log.term(last_log_index) {
            Some(t) => t,
            None => 0,  // unreachable: the last index always has a term
        };
        proof {
            assert(self.log.spec_term_at(self.log.spec_last_index()) == Some(
                self.log.spec_last_term(),
            ));
        }
        if prop.term > last_log_term || prop.index > last_log_index {
            return ProposalStatus::Missing;
        }
        let cur_term = match self.log.term(prop.index) {
            Some(v) => v,
            None => {
                return ProposalStatus::Unavailable;
            },
        };
        if cur_term > prop.term {
            ProposalStatus::Failed
        } else if cur_term < prop.term {
            if self.meta.commit_index >= prop.index {
                ProposalStatus::Failed
            } else {
                ProposalStatus::Missing
            }
        } else {
            if self.meta.commit_index >= prop.index {
                ProposalStatus::Commited
            } else {
                ProposalStatus::Pending
            }
        }
    }
}

/// How many of the listed followers are voting members other than `self_id`
/// whose known match index reaches `ci`.
pub open spec fn spec_follower_support(
    servers: Seq<(ServerId, ServerProgress)>,
    cfg: crate::protos::Configuration,
    self_id: ServerId,
    ci: int,
) -> int
    decreases servers.len(),
{
    if servers.len() == 0 {
        0
    } else {
        let t = servers.last();
        spec_follower_support(servers.drop_last(), cfg, self_id, ci) + if cfg.is_member(t.0) && t.0
            != self_id && t.1.match_index >= ci {
            1int
        } else {
            0int
        }
    }
}

impl ConsensusModule {
    /// How many voting members are known to have entry `ci` durable: this
    /// server through the log's flush marker, each follower through its
    /// recorded progress.
    pub open spec fn spec_support(&self, s: ServerLeaderState, ci: int) -> int {
        (if self.log.flushed >= ci {
            1int
        } else {
            0int
        }) + spec_follower_support(s.servers@, self.config.value, self.id, ci)
    }

    /// Whether the leader may move the commit index to `ci`: the entry there
    /// carries the current term (a leader never commits prior-term entries
    /// by counting replicas) and a majority of voting members hold it.
    pub open spec fn spec_committable(&self, s: ServerLeaderState, ci: int) -> bool {
        &&& self.log.spec_term_at(ci) == Some(self.meta.current_term)
        &&& self.spec_support(s, ci) >= self.spec_majority()
    }

    /// On the leader, the best next commit index currently possible: the
    /// highest index above the commit index that is committable, if any.
    fn find_next_commit_index(&self, s: &ServerLeaderState) -> (r: Option<u64>)
        requires
            self.inv(),
            self.meta.commit_index <= self.log.spec_last_index(),
        ensures
            r matches Some(ci) ==> {
                &&& self.meta.commit_index < ci <= self.log.spec_last_index()
                &&& self.spec_committable(*s, ci as int)
                &&& forall|c: int|
                    ci < c <= self.log.spec_last_index() ==> !self.spec_committable(*s, c)
            },
            r is None ==> forall|c: int|
                self.meta.commit_index < c <= self.log.spec_last_index()
                    ==> !self.spec_committable(*s, c),
    {
        let mut ci = self.prev_plus_len();
        let majority = self.majority_size();
        while ci > self.meta.commit_index
            invariant
                self.inv(),
                majority == self.spec_majority(),
                self.meta.commit_index <= ci <= self.log.spec_last_index(),
                forall|c: int|
                    ci < c <= self.log.spec_last_index() ==> !self.spec_committable(*s, c),
            decreases ci,
        {
            let term = match self.log.term(ci) {
                Some(t) => t,
                None => {
                    proof {
                        assert(self.log.prev_index < ci <= self.log.spec_last_index());
                        assert(false);  // the term is defined everywhere inside the log
                    }
                    0
                },
            };
            if term < self.meta.current_term {
                proof {
                    assert forall|c: int|
                        self.meta.commit_index < c <= self.log.spec_last_index()
                            implies !self.spec_committable(*s, c) by {
                        if c <= ci {
                            self.log.lemma_term_monotonic(c, ci as int);
                        }
                    }
                }
                return None;
            }
            if term == self.meta.current_term {
                let mut count: u128 = if self.log.flushed >= ci {
                    1
                } else {
                    0
                };
                let mut j: usize = 0;
                while j < s.servers.len()
                    invariant
                        j <= s.servers@.len(),
                        count == (if self.log.flushed >= ci {
                            1int
                        } else {
                            0int
                        }) + spec_follower_support(
                            s.servers@.take(j as int),
                            self.config.value,
                            self.id,
                            ci as int,
                        ),
                        count <= 1 + j,
                    decreases s.servers@.len() - j,
                {
                    let t = &s.servers[j];
                    let is_voter = self.config.value.contains_member(t.0);
                    proof {
                        assert(s.servers@.take(j + 1 as int).drop_last() =~= s.servers@.take(
                            j as int,
                        ));
                        assert(s.servers@.take(j + 1 as int).last() == s.servers@[j as int]);
                    }
                    if is_voter && t.0 != self.id && t.1.match_index >= ci {
                        count = count + 1;
                    }
                    j = j + 1;
                }
                proof {
                    assert(s.servers@.take(s.servers@.len() as int) =~= s.servers@);
                }
                if count >= majority as u128 {
                    return Some(ci);
                }
            }
            proof {
                assert(!self.spec_committable(*s, ci as int));
            }
            ci = ci - 1;
        }
        None
    }

    /// Moves the commit index forward to `index`, marking the metadata dirty
    /// and, if a pending configuration change thereby commits, the
    /// configuration snapshot too.
    fn update_commited(&mut self, index: u64, tick: &mut Tick)
        requires
            old(self).inv(),
            index > old(self).meta.commit_index,
            index <= old(self).log.spec_last_index(),
        ensures
            final(self).inv(),
            final(self).meta.commit_index == index,
            final(self).meta.current_term == old(self).meta.current_term,
            final(self).meta.voted_for == old(self).meta.voted_for,
            final(self).id == old(self).id,
            final(self).log == old(self).log,
            final(self).state == old(self).state,
            final(self).config.value == old(self).config.value,
            final(self).config.last_applied == old(self).config.last_applied,
            tick_extends(*old(tick), *final(tick)),
            final(tick).meta,
            final(tick).config == (old(tick).config || crate::config_state::spec_fold_count(
                old(self).config.pending@,
                index,
            ) > 0),
            final(self).config.committed.last_applied >= old(self).config.committed.last_applied,
            final(tick).messages@ == old(tick).messages@,
            final(tick).new_entries == old(tick).new_entries,
            final(tick).next_tick == old(tick).next_tick,
    {
        self.meta.commit_index = index;
        tick.write_meta();
        if self.config.commit(index) {
            tick.write_config();
        }
    }

    /// Sends a vote request carrying our last log position to every voting
    /// member besides ourselves; a single-node cluster has nobody to ask and
    /// sends nothing (the next cycle promotes it directly).
    fn perform_election(&self, tick: &mut Tick)
        requires
            self.inv(),
        ensures
            tick_extends(*old(tick), *final(tick)),
            final(tick).meta == old(tick).meta,
            final(tick).config == old(tick).config,
            final(tick).new_entries == old(tick).new_entries,
            final(tick).next_tick == old(tick).next_tick,
            (exists|x: ServerId|
                #[trigger] self.config.value.is_member(x) && x != self.id)
                <==> final(tick).messages@.len() == old(tick).messages@.len() + 1,
            final(tick).messages@.len() <= old(tick).messages@.len() + 1,
            forall|k: int|
                old(tick).messages@.len() <= k < final(tick).messages@.len() ==> {
                    let m = #[trigger] final(tick).messages@[k];
                    &&& m.body matches MessageBody::RequestVote(req) && req
                        == (RequestVoteRequest {
                        term: self.meta.current_term,
                        candidate_id: self.id,
                        last_log_index: self.log.spec_last_index() as u64,
                        last_log_term: self.log.spec_last_term(),
                    })
                    &&& forall|x: ServerId|
                        #[trigger] m.to@.contains(x) <==> (self.config.value.is_member(x) && x
                            != self.id)
                },
    {
        let last_log_index = self.prev_plus_len();
        let last_log_term = match self.log.term(last_log_index) {
            Some(t) => t,
            None => 0,  // unreachable: the last index always has a term
        };
        proof {
            assert(self.log.spec_term_at(self.log.spec_last_index()) == Some(
                self.log.spec_last_term(),
            ));
        }
        let req = RequestVoteRequest {
            term: self.meta.current_term,
            candidate_id: self.id,
            last_log_index,
            last_log_term,
        };
        let mut ids: Vec<ServerId> = Vec::new();
        let mut i: usize = 0;
        while i < self.config.value.members.len()
            invariant
                i <= self.config.value.members@.len(),
                forall|x: ServerId|
                    #[trigger] ids@.contains(x) ==> (self.config.value.is_member(x) && x
                        != self.id),
                forall|k: int|
                    0 <= k < i ==> (self.config.value.members@[k] == self.id || ids@.contains(
                        self.config.value.members@[k],
                    )),
            decreases self.config.value.members@.len() - i,
        {
            let x = self.config.value.members[i];
            if x != self.id {
                let ghost pre = ids@;
                ids.push(x);
                proof {
                    assert(self.config.value.members@[i as int] == x);
                    assert forall|y: ServerId| #[trigger]
                        ids@.contains(y) implies (self.config.value.is_member(y) && y
                        != self.id) by {
                        let k = choose|k: int| 0 <= k < ids@.len() && ids@[k] == y;
                        if k < pre.len() {
                            assert(pre[k] == y);
                            assert(pre.contains(y));
                        } else {
                            assert(y == x);
                        }
                    }
                    assert forall|k: int|
                        0 <= k < i + 1 implies (self.config.value.members@[k] == self.id
                        || ids@.contains(self.config.value.members@[k])) by {
                        if k < i {
                            if self.config.value.members@[k] != self.id {
                                let m = choose|m: int|
                                    0 <= m < pre.len() && pre[m] == self.config.value.members@[k];
                                assert(ids@[m] == self.config.value.members@[k]);
                            }
                        } else {
                            assert(ids@[pre.len() as int] == x);
                        }
                    }
                }
            }
            i = i + 1;
        }
        if ids.len() == 0 {
            proof {
                assert forall|x: ServerId|
                    !(#[trigger] self.config.value.is_member(x) && x != self.id) by {
                    if self.config.value.is_member(x) {
                        let k = choose|k: int|
                            0 <= k < self.config.value.members@.len()
                                && self.config.value.members@[k] == x;
                        assert(self.config.value.members@[k] == self.id || ids@.contains(x));
                    }
                }
            }
            return ;
        }
        proof {
            let w = ids@[0];
            assert(ids@.contains(w));
        }
        tick.send(Message { to: ids, body: MessageBody::RequestVote(req) });
    }
}

/// The leader-state payload of a role value known to be `Leader`.
pub open spec fn spec_leader_state(s: ServerState) -> ServerLeaderState {
    s->Leader_0
}

/// Whether `msgs[lo..]` holds a message addressed to `x` whose replication
/// batch starts right after `prev`.
pub open spec fn requested_in(msgs: Seq<Message>, lo: int, x: ServerId, prev: u64) -> bool {
    exists|k: int| lo <= k < msgs.len() && msg_requests(#[trigger] msgs[k], x, prev)
}

/// A message addressed to `x` carrying a replication batch that starts
/// right after index `prev`.
pub open spec fn msg_requests(m: Message, x: ServerId, prev: u64) -> bool {
    &&& m.to@.contains(x)
    &&& m.body matches MessageBody::AppendEntries(req, _) && req.prev_log_index == prev
}

/// A message carrying a replication batch consistent with the leader's
/// state: correct term, leader id and commit index, a previous position that
/// matches the log, and exactly the log's entries after it.
pub open spec fn valid_replication_message(
    m: Message,
    term: Term,
    leader_id: ServerId,
    leader_commit: LogIndex,
    log: LogStore,
) -> bool {
    m.body matches MessageBody::AppendEntries(req, last) && {
        &&& last == log.spec_last_index()
        &&& req.term == term
        &&& req.leader_id == leader_id
        &&& req.leader_commit == leader_commit
        &&& log.spec_term_at(req.prev_log_index as int) == Some(req.prev_log_term)
        &&& req.prev_log_index <= log.spec_last_index()
        &&& req.entries@.len() == log.spec_last_index() - req.prev_log_index
        &&& forall|j: int|
            0 <= j < req.entries@.len() ==> (#[trigger] req.entries@[j])@ == log.spec_entry_at(
                req.prev_log_index + 1 + j,
            )
    }
}

impl ConsensusModule {
    /// The recorded progress for `sid`, when we are leader.
    fn leader_get(&self, sid: ServerId) -> (r: Option<ServerProgress>)
        requires
            self.inv(),
            self.state is Leader,
        ensures
            r == (match self.state {
                ServerState::Leader(l) => l.spec_progress_of(sid),
                _ => None,
            }),
    {
        match &self.state {
            ServerState::Leader(l) => l.get(sid),
            _ => None,
        }
    }

    /// Records `p` as the progress for `sid`, when we are leader.
    fn leader_put(&mut self, sid: ServerId, p: ServerProgress)
        requires
            old(self).inv(),
            old(self).state is Leader,
            p.next_index > old(self).log.prev_index,
            p.next_index <= old(self).log.spec_last_index() + 1,
        ensures
            final(self).inv(),
            final(self).id == old(self).id,
            final(self).meta == old(self).meta,
            final(self).log == old(self).log,
            final(self).config == old(self).config,
            final(self).state is Leader,
            (match (old(self).state, final(self).state) {
                (ServerState::Leader(l1), ServerState::Leader(l2)) => {
                    &&& l2.spec_progress_of(sid) == Some(p)
                    &&& forall|x: ServerId|
                        x != sid ==> #[trigger] l2.spec_progress_of(x) == l1.spec_progress_of(x)
                },
                _ => false,
            }),
    {
        match &mut self.state {
            ServerState::Leader(l) => {
                l.put(sid, p);
            },
            _ => {},
        }
        proof {
            match (&old(self).state, &self.state) {
                (ServerState::Leader(l1), ServerState::Leader(l2)) => {
                    assert forall|k: int|
                        0 <= k < l2.servers@.len() implies (#[trigger] l2.servers@[k]).1.next_index
                        > self.log.prev_index && l2.servers@[k].1.next_index
                        <= self.log.spec_last_index() + 1 by {
                        let x = l2.servers@[k].0;
                        if x == sid {
                            assert(l2.spec_progress_of(sid) == Some(p));
                            let i = choose|i: int|
                                0 <= i < l2.servers@.len() && (#[trigger] l2.servers@[i]).0 == sid;
                            assert(i == k);
                        } else {
                            assert(l2.spec_progress_of(x) == l1.spec_progress_of(x));
                            let i = choose|i: int|
                                0 <= i < l2.servers@.len() && (#[trigger] l2.servers@[i]).0 == x;
                            assert(i == k);
                            let j = choose|j: int|
                                0 <= j < l1.servers@.len() && (#[trigger] l1.servers@[j]).0 == x;
                            assert(l1.servers@[j].1 == l2.servers@[k].1);
                        }
                    }
                },
                _ => {},
            }
        }
    }

    /// A replication request carrying every entry after `prev_log_index`.
    fn build_append_request(&self, prev_log_index: LogIndex) -> (r: AppendEntriesRequest)
        requires
            self.inv(),
            self.log.prev_index <= prev_log_index <= self.log.spec_last_index(),
        ensures
            r.term == self.meta.current_term,
            r.leader_id == self.id,
            r.leader_commit == self.meta.commit_index,
            r.prev_log_index == prev_log_index,
            self.log.spec_term_at(prev_log_index as int) == Some(r.prev_log_term),
            r.entries@.len() == self.log.spec_last_index() - prev_log_index,
            forall|j: int|
                0 <= j < r.entries@.len() ==> (#[trigger] r.entries@[j])@ == self.log.spec_entry_at(
                    prev_log_index + 1 + j,
                ),
    {
        let prev_log_term = match self.log.term(prev_log_index) {
            Some(t) => t,
            None => 0,  // unreachable: `prev_log_index` is inside the log
        };
        let last = self.prev_plus_len();
        let mut entries: Vec<LogEntry> = Vec::new();
        let mut i: u64 = prev_log_index;
        while i < last
            invariant
                self.inv(),
                last == self.log.spec_last_index(),
                prev_log_index <= i <= last,
                self.log.prev_index <= prev_log_index,
                entries@.len() == i - prev_log_index,
                forall|j: int|
                    0 <= j < entries@.len() ==> (#[trigger] entries@[j])@ == self.log.spec_entry_at(
                        prev_log_index + 1 + j,
                    ),
            decreases last - i,
        {
            let e = match self.log.entry(i + 1) {
                Some(e) => clone_entry(e),
                None => {
                    proof {
                        assert(self.log.has_entry(i + 1));
                        assert(false);  // every index up to the last is present
                    }
                    LogEntry { index: 0, term: 0, data: LogEntryData::Noop }
                },
            };
            entries.push(e);
            i = i + 1;
        }
        AppendEntriesRequest {
            term: self.meta.current_term,
            leader_id: self.id,
            prev_log_index,
            prev_log_term,
            entries,
            leader_commit: self.meta.commit_index,
        }
    }

    /// Whether the leader owes `target`'s progress a request right now:
    /// nothing is in flight to it, and it either lags the log or its
    /// heartbeat is due (never sent, or sent a full heartbeat interval ago).
    pub open spec fn needs_request(p: ServerProgress, last: int, time: u64) -> bool {
        &&& !p.request_pending
        &&& (p.match_index < last || (match p.last_sent {
            None => true,
            Some(ts) => elapsed_ms(time, ts) >= HEARTBEAT_TIMEOUT,
        }))
    }

    /// The progress record after a request went out at `time`.
    pub open spec fn sent_progress(p: ServerProgress, time: u64) -> ServerProgress {
        ServerProgress { last_sent: Some(time), request_pending: true, ..p }
    }

    /// The fresh progress record for a server first seen with the log ending
    /// at `last`.
    pub open spec fn fresh_progress(last: int) -> ServerProgress {
        ServerProgress {
            next_index: (last + 1) as u64,
            match_index: 0,
            last_sent: None,
            request_pending: false,
        }
    }

    /// What one replication pass owes server `x`, given the leader state
    /// `l1` before and `l2` after, the configuration, the last log index,
    /// the pass's time, and the messages it appended (`msgs[lo..]`): servers
    /// outside the configuration (and ourselves) are untouched; a server
    /// without a record gets a fresh one and a request; a server that needs
    /// a request is sent one from its next index and marked in flight;
    /// everyone else is left alone.
    pub open spec fn replicated_for(
        l1: ServerLeaderState,
        l2: ServerLeaderState,
        cfg: crate::protos::Configuration,
        id: ServerId,
        last: int,
        time: u64,
        msgs: Seq<Message>,
        lo: int,
        x: ServerId,
    ) -> bool {
        if (cfg.is_member(x) || cfg.is_learner(x)) && x != id {
            match l1.spec_progress_of(x) {
                None => {
                    &&& l2.spec_progress_of(x) == Some(
                        Self::sent_progress(Self::fresh_progress(last), time),
                    )
                    &&& requested_in(msgs, lo, x, last as u64)
                },
                Some(p) => {
                    if Self::needs_request(p, last, time) {
                        &&& l2.spec_progress_of(x) == Some(Self::sent_progress(p, time))
                        &&& requested_in(msgs, lo, x, (p.next_index - 1) as u64)
                    } else {
                        l2.spec_progress_of(x) == Some(p)
                    }
                },
            }
        } else {
            l2.spec_progress_of(x) == l1.spec_progress_of(x)
        }
    }

    /// On the leader: produce requests to replicate or maintain the log on
    /// every other server, heartbeats included; identical requests to
    /// several followers are merged into one message.  Returns the time
    /// until the next heartbeat is due.
    #[verifier::rlimit(100)]
    #[verifier::spinoff_prover]
    fn replicate_entries(&mut self, tick: &mut Tick) -> (r: u64)
        requires
            old(self).inv(),
            old(self).state is Leader,
            old(self).log.spec_last_index() < u64::MAX,
        ensures
            final(self).inv(),
            final(self).id == old(self).id,
            final(self).meta == old(self).meta,
            final(self).log == old(self).log,
            final(self).config == old(self).config,
            final(self).state is Leader,
            tick_extends(*old(tick), *final(tick)),
            final(tick).meta == old(tick).meta,
            final(tick).config == old(tick).config,
            final(tick).new_entries == old(tick).new_entries,
            final(tick).next_tick == old(tick).next_tick,
            forall|k: int|
                old(tick).messages@.len() <= k < final(tick).messages@.len()
                    ==> valid_replication_message(
                    #[trigger] final(tick).messages@[k],
                    old(self).meta.current_term,
                    old(self).id,
                    old(self).meta.commit_index,
                    old(self).log,
                ),
            // every other configured server is requested or deliberately
            // skipped, per its progress
            forall|x: ServerId|
                Self::replicated_for(
                    spec_leader_state(old(self).state),
                    spec_leader_state(final(self).state),
                    old(self).config.value,
                    old(self).id,
                    old(self).log.spec_last_index(),
                    old(tick).time,
                    final(tick).messages@,
                    old(tick).messages@.len() as int,
                    x,
                ),
            // the suggested wakeup: a full heartbeat interval, shortened by
            // the oldest outstanding heartbeat among the up-to-date servers
            // that were skipped
            r <= HEARTBEAT_TIMEOUT,
            r < HEARTBEAT_TIMEOUT ==> exists|x: ServerId|
                {
                    &&& ((#[trigger] old(self).config.value.is_member(x))
                        || old(self).config.value.is_learner(x))
                    &&& x != old(self).id
                    &&& match spec_leader_state(old(self).state).spec_progress_of(x) {
                        Some(p) => {
                            &&& !p.request_pending
                            &&& p.match_index >= old(self).log.spec_last_index()
                            &&& p.last_sent matches Some(ts) && elapsed_ms(old(tick).time, ts)
                                == HEARTBEAT_TIMEOUT - r
                        },
                        None => false,
                    }
                },
    {
        let leader_id = self.id;
        let last_log_index = self.prev_plus_len();
        let targets = self.config.value.iter();
        let ghost l1 = spec_leader_state(self.state);
        let ghost cfg0 = self.config.value;
        let ghost time0 = tick.time;
        proof {
            assert(self.state == ServerState::Leader(l1));
            // the replication targets are pairwise distinct: members and
            // learners are each duplicate-free and mutually disjoint
            assert forall|a: int, b: int|
                0 <= a < b < targets@.len() implies targets@[a] != targets@[b] by {
                let nm = cfg0.members@.len() as int;
                if b < nm {
                } else if a >= nm {
                } else {
                    assert(targets@[a] == cfg0.members@[a]);
                    assert(targets@[b] == cfg0.learners@[b - nm]);
                    assert(cfg0.is_member(cfg0.members@[a]));
                    assert(cfg0.is_learner(cfg0.learners@[b - nm]));
                }
            }
        }
        let mut queued: Vec<Message> = Vec::new();
        let mut since_last_heartbeat: u64 = 0;
        let mut i: usize = 0;
        while i < targets.len()
            invariant
                self.inv(),
                self.state is Leader,
                self.id == old(self).id,
                self.meta == old(self).meta,
                self.log == old(self).log,
                self.config == old(self).config,
                leader_id == self.id,
                last_log_index == self.log.spec_last_index(),
                l1 == spec_leader_state(old(self).state),
                cfg0 == self.config.value,
                targets@ == cfg0.members@ + cfg0.learners@,
                forall|a: int, b: int| 0 <= a < b < targets@.len() ==> targets@[a] != targets@[b],
                *tick == *old(tick),
                time0 == tick.time,
                i <= targets@.len(),
                last_log_index < u64::MAX,
                since_last_heartbeat < HEARTBEAT_TIMEOUT,
                forall|k: int|
                    0 <= k < queued@.len() ==> valid_replication_message(
                        #[trigger] queued@[k],
                        self.meta.current_term,
                        self.id,
                        self.meta.commit_index,
                        self.log,
                    ),
                forall|x: ServerId|
                    targets@.take(i as int).contains(x) && x != leader_id
                        ==> Self::replicated_for(
                        l1,
                        spec_leader_state(self.state),
                        cfg0,
                        leader_id,
                        last_log_index as int,
                        time0,
                        queued@,
                        0,
                        x,
                    ),
                forall|x: ServerId|
                    !(targets@.take(i as int).contains(x) && x != leader_id) ==> (
                    #[trigger] spec_leader_state(self.state).spec_progress_of(x))
                        == l1.spec_progress_of(x),
                since_last_heartbeat == 0 || exists|x: ServerId|
                    {
                        &&& targets@.take(i as int).contains(x)
                        &&& x != leader_id
                        &&& #[trigger] l1.spec_progress_of(x) matches Some(p)
                        &&& !p.request_pending
                        &&& p.match_index >= last_log_index
                        &&& p.last_sent matches Some(ts) && elapsed_ms(time0, ts)
                            == since_last_heartbeat
                    },
            decreases targets@.len() - i,
        {
            let ghost self_head = *self;
            let ghost q_head = queued@;
            let ghost since_head = since_last_heartbeat;
            let server_id = targets[i];
            let ghost pre_take = targets@.take(i as int);
            proof {
                assert(targets@.take(i + 1) =~= pre_take.push(targets@[i as int]));
                assert forall|x: ServerId|
                    (#[trigger] targets@.take(i + 1).contains(x) <==> (pre_take.contains(x) || x
                        == targets@[i as int])) by {
                    if targets@.take(i + 1).contains(x) {
                        let w = choose|w: int|
                            0 <= w < targets@.take(i + 1).len() && #[trigger] targets@.take(
                                i + 1,
                            )[w] == x;
                        if w < i {
                            assert(pre_take[w] == x);
                        }
                    }
                    if pre_take.contains(x) {
                        let w = choose|w: int|
                            0 <= w < pre_take.len() && pre_take[w] == x;
                        assert(targets@.take(i + 1)[w] == x);
                    }
                    if x == targets@[i as int] {
                        assert(targets@.take(i + 1)[i as int] == x);
                    }
                }
                assert(!pre_take.contains(server_id)) by {
                    if pre_take.contains(server_id) {
                        let w = choose|w: int|
                            0 <= w < pre_take.len() && pre_take[w] == server_id;
                        assert(targets@[w] == targets@[i as int]);
                    }
                }
                // the target comes from the configuration
                if (i as int) < cfg0.members@.len() {
                    assert(cfg0.members@[i as int] == server_id);
                    assert(cfg0.is_member(server_id));
                } else {
                    assert(cfg0.learners@[i - cfg0.members@.len()] == server_id);
                    assert(cfg0.is_learner(server_id));
                }
            }
            i = i + 1;
            if server_id == leader_id {
                continue ;
            }
            proof {
                assert(spec_leader_state(self.state).spec_progress_of(server_id)
                    == l1.spec_progress_of(server_id));
            }
            let progress = match self.leader_get(server_id) {
                Some(p) => p,
                None => {
                    let p = ServerProgress::new(last_log_index);
                    self.leader_put(server_id, p);
                    p
                },
            };
            if progress.request_pending {
                proof {
                    assert(l1.spec_progress_of(server_id) == Some(progress));
                    assert(!Self::needs_request(progress, last_log_index as int, time0));
                }
                continue ;
            }
            let mut skip_recent = false;
            if progress.match_index >= last_log_index {
                match progress.last_sent {
                    Some(sent) => {
                        let elapsed = if tick.time >= sent {
                            tick.time - sent
                        } else {
                            0
                        };
                        if elapsed < HEARTBEAT_TIMEOUT {
                            if elapsed > since_last_heartbeat {
                                since_last_heartbeat = elapsed;
                            }
                            skip_recent = true;
                            proof {
                                assert(l1.spec_progress_of(server_id) == Some(progress));
                                assert(!Self::needs_request(
                                    progress,
                                    last_log_index as int,
                                    time0,
                                ));
                                if since_last_heartbeat != since_head {
                                    assert(targets@.take(i as int).contains(
                                        targets@[i - 1],
                                    ));
                                }
                            }
                        }
                    },
                    None => {},
                }
            }
            if skip_recent {
                continue ;
            }
            proof {
                match l1.spec_progress_of(server_id) {
                    Some(p) => {
                        assert(p == progress);
                        assert(Self::needs_request(p, last_log_index as int, time0));
                    },
                    None => {
                        assert(progress == Self::fresh_progress(last_log_index as int));
                    },
                }
            }
            self.leader_put(
                server_id,
                ServerProgress {
                    request_pending: true,
                    last_sent: Some(tick.time),
                    ..progress
                },
            );
            let msg_key = progress.next_index - 1;
            // merge with an identical queued request if one exists
            let mut found: Option<usize> = None;
            let mut k: usize = 0;
            while k < queued.len() && found.is_none()
                invariant
                    k <= queued@.len(),
                    found matches Some(f) ==> f < queued@.len() && (
                    queued@[f as int].body matches MessageBody::AppendEntries(req, _)
                        && req.prev_log_index == msg_key),
                decreases (if found is None {
                    1int
                } else {
                    0int
                }), queued@.len() - k,
            {
                let matches_key = match &queued[k].body {
                    MessageBody::AppendEntries(req, _) => req.prev_log_index == msg_key,
                    _ => false,
                };
                if matches_key {
                    found = Some(k);
                } else {
                    k = k + 1;
                }
            }
            let ghost pre_q = queued@;
            match found {
                Some(f) => {
                    let mut m = queued.swap_remove(f);
                    let ghost m0 = m;
                    m.to.push(server_id);
                    queued.push(m);
                    proof {
                        // the merged message kept its body and gained one
                        // recipient; every earlier witness survives the move
                        let last_q = queued@.len() - 1;
                        assert(m0 == pre_q[f as int]);
                        assert(queued@[last_q].body == m0.body);
                        assert(queued@[last_q].to@ == m0.to@.push(server_id));
                        assert(queued@[last_q].to@[m0.to@.len() as int] == server_id);
                        assert(queued@[last_q].to@.contains(server_id));
                        assert(msg_requests(queued@[last_q], server_id, msg_key));
                        assert(requested_in(queued@, 0, server_id, msg_key));
                        assert forall|y: ServerId, prev: u64| #[trigger]
                            requested_in(pre_q, 0, y, prev) implies requested_in(
                            queued@,
                            0,
                            y,
                            prev,
                        ) by {
                            let w = choose|w: int|
                                0 <= w < pre_q.len() && msg_requests(#[trigger] pre_q[w], y, prev);
                            if w == f {
                                assert forall|z: ServerId|
                                    m0.to@.contains(z) implies #[trigger] queued@[last_q].to@.contains(z) by {
                                    let v = choose|v: int|
                                        0 <= v < m0.to@.len() && m0.to@[v] == z;
                                    assert(queued@[last_q].to@[v] == z);
                                }
                                assert(msg_requests(queued@[last_q], y, prev));
                            } else if w == pre_q.len() - 1 {
                                assert(queued@[f as int] == pre_q[w]);
                                assert(msg_requests(queued@[f as int], y, prev));
                            } else {
                                assert(queued@[w] == pre_q[w]);
                                assert(msg_requests(queued@[w], y, prev));
                            }
                        }
                        assert forall|k2: int|
                            0 <= k2 < queued@.len() implies valid_replication_message(
                            #[trigger] queued@[k2],
                            self.meta.current_term,
                            self.id,
                            self.meta.commit_index,
                            self.log,
                        ) by {
                            if k2 == last_q {
                                assert(valid_replication_message(
                                    pre_q[f as int],
                                    self.meta.current_term,
                                    self.id,
                                    self.meta.commit_index,
                                    self.log,
                                ));
                            }
                        }
                    }
                },
                None => {
                    let req = self.build_append_request(msg_key);
                    let mut to: Vec<ServerId> = Vec::new();
                    to.push(server_id);
                    queued.push(
                        Message { to, body: MessageBody::AppendEntries(req, last_log_index) },
                    );
                    proof {
                        let last_q = queued@.len() - 1;
                        assert(queued@[last_q].to@[0] == server_id);
                        assert(queued@[last_q].to@.contains(server_id));
                        assert(msg_requests(queued@[last_q], server_id, msg_key));
                        assert(requested_in(queued@, 0, server_id, msg_key));
                        assert forall|y: ServerId, prev: u64| #[trigger]
                            requested_in(pre_q, 0, y, prev) implies requested_in(
                            queued@,
                            0,
                            y,
                            prev,
                        ) by {
                            let w = choose|w: int|
                                0 <= w < pre_q.len() && msg_requests(#[trigger] pre_q[w], y, prev);
                            assert(queued@[w] == pre_q[w]);
                            assert(msg_requests(queued@[w], y, prev));
                        }
                    }
                },
            }
            proof {
                // the server just handled meets its obligation, and every
                // earlier one keeps meeting its own: their progress was not
                // touched and the queue only gained witnesses
                assert(requested_in(queued@, 0, server_id, msg_key));
                assert forall|x: ServerId|
                    targets@.take(i as int).contains(x) && x != leader_id
                        implies Self::replicated_for(
                        l1,
                        spec_leader_state(self.state),
                        cfg0,
                        leader_id,
                        last_log_index as int,
                        time0,
                        queued@,
                        0,
                        x,
                    ) by {
                    if x == server_id {
                        assert(spec_leader_state(self.state).spec_progress_of(server_id)
                            == Some(
                            Self::sent_progress(
                                (match l1.spec_progress_of(server_id) {
                                    Some(p) => p,
                                    None => Self::fresh_progress(last_log_index as int),
                                }),
                                time0,
                            ),
                        ));
                    } else {
                        assert(pre_take.contains(x));
                        assert(Self::replicated_for(
                            l1,
                            spec_leader_state(self_head.state),
                            cfg0,
                            leader_id,
                            last_log_index as int,
                            time0,
                            q_head,
                            0,
                            x,
                        ));
                        assert(spec_leader_state(self.state).spec_progress_of(x)
                            == spec_leader_state(self_head.state).spec_progress_of(x));
                        assert(q_head == pre_q);
                    }
                }
            }
        }
        proof {
            assert(targets@.take(targets@.len() as int) =~= targets@);
            assert forall|x: ServerId|
                ((cfg0.is_member(x) || cfg0.is_learner(x)) && x != leader_id) implies #[trigger] targets@.contains(
                x,
            ) by {
                if cfg0.is_member(x) {
                    let w = choose|w: int|
                        0 <= w < cfg0.members@.len() && cfg0.members@[w] == x;
                    assert(targets@[w] == x);
                } else {
                    let w = choose|w: int|
                        0 <= w < cfg0.learners@.len() && cfg0.learners@[w] == x;
                    assert(targets@[cfg0.members@.len() + w] == x);
                }
            }
        }
        let ghost post_main = *self;
        let ghost q_final = queued@;
        // everything merged: hand the messages to the tick
        while queued.len() > 0
            invariant
                *self == post_main,
                tick_extends(*old(tick), *tick),
                tick.meta == old(tick).meta,
                tick.config == old(tick).config,
                tick.new_entries == old(tick).new_entries,
                tick.next_tick == old(tick).next_tick,
                forall|k: int|
                    0 <= k < queued@.len() ==> valid_replication_message(
                        #[trigger] queued@[k],
                        old(self).meta.current_term,
                        old(self).id,
                        old(self).meta.commit_index,
                        old(self).log,
                    ),
                forall|k: int|
                    old(tick).messages@.len() <= k < tick.messages@.len()
                        ==> valid_replication_message(
                        #[trigger] tick.messages@[k],
                        old(self).meta.current_term,
                        old(self).id,
                        old(self).meta.commit_index,
                        old(self).log,
                    ),
                forall|y: ServerId, prev: u64|
                    #[trigger] requested_in(q_final, 0, y, prev) ==> requested_in(
                        queued@,
                        0,
                        y,
                        prev,
                    ) || requested_in(tick.messages@, old(tick).messages@.len() as int, y, prev),
            decreases queued@.len(),
        {
            let ghost pre_q = queued@;
            let ghost pre_msgs = tick.messages@;
            let m = match queued.pop() {
                Some(m) => m,
                None => {
                    proof {
                        assert(false);  // the loop condition guarantees an element
                    }
                    Message { to: Vec::new(), body: MessageBody::PreVote(RequestVoteRequest {
                        term: 0, candidate_id: 0, last_log_index: 0, last_log_term: 0,
                    }) }
                },
            };
            tick.send(m);
            proof {
                assert(tick.messages@[pre_msgs.len() as int] == pre_q[pre_q.len() - 1]);
                assert forall|y: ServerId, prev: u64| #[trigger]
                    requested_in(q_final, 0, y, prev) implies requested_in(
                    queued@,
                    0,
                    y,
                    prev,
                ) || requested_in(tick.messages@, old(tick).messages@.len() as int, y, prev) by {
                    if requested_in(pre_q, 0, y, prev) {
                        let w = choose|w: int|
                            0 <= w < pre_q.len() && msg_requests(#[trigger] pre_q[w], y, prev);
                        if w == pre_q.len() - 1 {
                            assert(msg_requests(tick.messages@[pre_msgs.len() as int], y, prev));
                            assert(requested_in(
                                tick.messages@,
                                old(tick).messages@.len() as int,
                                y,
                                prev,
                            ));
                        } else {
                            assert(queued@[w] == pre_q[w]);
                            assert(msg_requests(queued@[w], y, prev));
                            assert(requested_in(queued@, 0, y, prev));
                        }
                    } else if requested_in(
                        pre_msgs,
                        old(tick).messages@.len() as int,
                        y,
                        prev,
                    ) {
                        let w = choose|w: int|
                            old(tick).messages@.len() <= w < pre_msgs.len() && msg_requests(
                                #[trigger] pre_msgs[w],
                                y,
                                prev,
                            );
                        assert(tick.messages@[w] == pre_msgs[w]);
                        assert(msg_requests(tick.messages@[w], y, prev));
                        assert(requested_in(
                            tick.messages@,
                            old(tick).messages@.len() as int,
                            y,
                            prev,
                        ));
                    }
                }
            }
        }
        proof {
            assert forall|x: ServerId|
                Self::replicated_for(
                    l1,
                    spec_leader_state(self.state),
                    cfg0,
                    leader_id,
                    last_log_index as int,
                    time0,
                    tick.messages@,
                    old(tick).messages@.len() as int,
                    x,
                ) by {
                if (cfg0.is_member(x) || cfg0.is_learner(x)) && x != leader_id {
                    assert(targets@.contains(x));
                    assert(Self::replicated_for(
                        l1,
                        spec_leader_state(post_main.state),
                        cfg0,
                        leader_id,
                        last_log_index as int,
                        time0,
                        q_final,
                        0,
                        x,
                    ));
                }
            }
        }
        proof {
            if since_last_heartbeat > 0 {
                let x = choose|x: ServerId|
                    {
                        &&& targets@.contains(x)
                        &&& x != leader_id
                        &&& #[trigger] l1.spec_progress_of(x) matches Some(p)
                        &&& !p.request_pending
                        &&& p.match_index >= last_log_index
                        &&& p.last_sent matches Some(ts) && elapsed_ms(time0, ts)
                            == since_last_heartbeat
                    };
                let w = choose|w: int| 0 <= w < targets@.len() && targets@[w] == x;
                if w < cfg0.members@.len() {
                    assert(cfg0.members@[w] == x);
                    assert(cfg0.is_member(x));
                } else {
                    assert(cfg0.learners@[w - cfg0.members@.len()] == x);
                    assert(cfg0.is_learner(x));
                }
            }
        }
        HEARTBEAT_TIMEOUT - since_last_heartbeat
    }
}

impl ConsensusModule {
    /// Becomes a candidate and asks the voting members for their votes.  The
    /// term is incremented unless we are already a candidate of the current
    /// term that saw no rejection (retrying the same election).
    fn enter_election(&mut self, tick: &mut Tick)
        requires
            old(self).inv(),
            old(self).can_be_leader_spec(),
            old(self).meta.current_term < u64::MAX,
        ensures
            final(self).inv(),
            Self::step_safe(&*old(self), &*final(self)),
            final(self).log == old(self).log,
            final(self).config == old(self).config,
            final(self).meta.commit_index == old(self).meta.commit_index,
            final(self).meta.current_term <= old(self).meta.current_term + 1,
            final(self).meta.voted_for == Some(old(self).id),
            (match final(self).state {
                ServerState::Candidate(c) => {
                    &&& c.votes_received@.len() == 0
                    &&& !c.some_rejected
                    &&& c.election_start == old(tick).time
                    &&& ELECTION_TIMEOUT_MIN <= c.election_timeout < ELECTION_TIMEOUT_MAX
                },
                _ => false,
            }),
            !(old(self).state matches ServerState::Candidate(c) && !c.some_rejected) ==> final(self).meta.current_term == old(self).meta.current_term + 1,
            old(self).state matches ServerState::Candidate(c) ==> (!c.some_rejected ==> final(self).meta.current_term == old(self).meta.current_term),
            !(old(self).state matches ServerState::Candidate(c) && !c.some_rejected) ==> final(tick).meta,
            tick_extends(*old(tick), *final(tick)),
            final(tick).new_entries == old(tick).new_entries,
            final(tick).next_tick == old(tick).next_tick,
            // one vote request goes out, to every other voting member; the
            // sole member of its cluster has nobody to ask
            (exists|x: ServerId|
                #[trigger] old(self).config.value.is_member(x) && x != old(self).id)
                <==> final(tick).messages@.len() == old(tick).messages@.len() + 1,
            final(tick).messages@.len() <= old(tick).messages@.len() + 1,
            forall|k: int|
                old(tick).messages@.len() <= k < final(tick).messages@.len() ==> {
                    &&& (#[trigger] final(tick).messages@[k]).body
                        matches MessageBody::RequestVote(req)
                    &&& req == (RequestVoteRequest {
                        term: final(self).meta.current_term,
                        candidate_id: old(self).id,
                        last_log_index: old(self).log.spec_last_index() as u64,
                        last_log_term: old(self).log.spec_last_term(),
                    })
                    &&& forall|x: ServerId|
                        #[trigger] final(tick).messages@[k].to@.contains(x) <==> (old(self).config.value.is_member(x) && x != old(self).id)
                },
    {
        let must_increment = match &self.state {
            ServerState::Candidate(c) => c.some_rejected,
            _ => true,
        };
        if must_increment {
            self.meta.current_term = self.meta.current_term + 1;
            self.meta.voted_for = Some(self.id);
            tick.write_meta();
        }
        self.state = ServerState::Candidate(
            ServerCandidateState {
                election_start: tick.time,
                election_timeout: new_election_timeout(),
                votes_received: Vec::new(),
                some_rejected: false,
            },
        );
        self.perform_election(tick);
    }

    /// Transitions a winning candidate to leader: initializes every other
    /// server's progress and, if our log ends with an uncommitted tail from
    /// an earlier term, immediately appends a no-op so that the new term can
    /// commit it.
    fn become_leader(&mut self, tick: &mut Tick)
        requires
            old(self).inv(),
            old(self).state is Candidate,
            old(self).log.spec_last_index() < u64::MAX,
        ensures
            final(self).inv(),
            Self::step_safe(&*old(self), &*final(self)),
            Self::log_is_extension(&*old(self), &*final(self)),
            final(self).state is Leader,
            final(self).meta.current_term == old(self).meta.current_term,
            final(self).meta.voted_for == old(self).meta.voted_for,
            final(self).meta.commit_index == old(self).meta.commit_index,
            final(self).log.spec_last_index() <= old(self).log.spec_last_index() + 1,
            tick_extends(*old(tick), *final(tick)),
            final(tick).messages@ == old(tick).messages@,
            final(tick).next_tick == old(tick).next_tick,
            old(self).meta.commit_index == old(self).log.spec_last_index() ==> final(self).log
                == old(self).log,
            final(self).config.value == old(self).config.value,
            final(self).config.pending@ == old(self).config.pending@,
            final(self).config.committed == old(self).config.committed,
            // an uncommitted tail from an earlier term gets a no-op of ours
            old(self).meta.commit_index < old(self).log.spec_last_index() ==> final(self).log@
                == old(self).log@.push(
                crate::protos::EntryModel {
                    index: (old(self).log.spec_last_index() + 1) as u64,
                    term: old(self).meta.current_term,
                    data: crate::protos::EntryDataModel::Noop,
                },
            ) && final(tick).new_entries,
            // every other server of the configuration starts with a fresh
            // progress record pointing past our log
            final(self).state matches ServerState::Leader(l) ==> {
                &&& forall|x: ServerId|
                    #[trigger] l.spec_progress_of(x) is Some <==> ((old(self).config.value.is_member(x) || old(self).config.value.is_learner(x)) && x != old(self).id)
                &&& forall|x: ServerId|
                    #[trigger] l.spec_progress_of(x) matches Some(p) ==> p == (ServerProgress {
                        next_index: (old(self).log.spec_last_index() + 1) as u64,
                        match_index: 0,
                        last_sent: None,
                        request_pending: false,
                    })
            },
    {
        let last_log_index = self.prev_plus_len();
        let targets = self.config.value.iter();
        let mut servers: Vec<(ServerId, ServerProgress)> = Vec::new();
        let mut i: usize = 0;
        while i < targets.len()
            invariant
                i <= targets@.len(),
                last_log_index < u64::MAX,
                forall|a: int, b: int|
                    0 <= a < b < servers@.len() ==> (#[trigger] servers@[a]).0 != (
                    #[trigger] servers@[b]).0,
                forall|k: int|
                    0 <= k < servers@.len() ==> (#[trigger] servers@[k]).1 == (ServerProgress {
                        next_index: (last_log_index + 1) as u64,
                        match_index: 0,
                        last_sent: None,
                        request_pending: false,
                    }),
                forall|k: int|
                    0 <= k < servers@.len() ==> (#[trigger] servers@[k]).0 != self.id
                        && targets@.take(i as int).contains(servers@[k].0),
                forall|k: int|
                    0 <= k < i ==> ((#[trigger] targets@[k]) == self.id || exists|j: int|
                        0 <= j < servers@.len() && (#[trigger] servers@[j]).0 == targets@[k]),
            decreases targets@.len() - i,
        {
            let t = targets[i];
            proof {
                assert(targets@.take(i as int).len() == i);
                assert(targets@.take(i + 1).len() == i + 1);
                assert(forall|w: int| 0 <= w < i ==> targets@.take(i + 1)[w] == targets@.take(
                    i as int,
                )[w]);
                assert(targets@.take(i + 1)[i as int] == targets@[i as int]);
            }
            let ghost pre_all = servers@;
            if t != self.id && !progress_ids_contain(&servers, t) {
                servers.push((t, ServerProgress::new(last_log_index)));
                proof {
                    assert(servers@[pre_all.len() as int].0 == t);
                }
            }
            proof {
                assert forall|k: int|
                    0 <= k < servers@.len() implies servers@[k].0 != self.id && targets@.take(
                    i + 1,
                ).contains(servers@[k].0) by {
                    if targets@.take(i as int).contains(servers@[k].0) {
                        let w = choose|w: int|
                            0 <= w < targets@.take(i as int).len() && targets@.take(i as int)[w]
                                == servers@[k].0;
                        assert(targets@.take(i + 1)[w] == servers@[k].0);
                    } else {
                        assert(servers@[k].0 == t);
                        assert(targets@.take(i + 1)[i as int] == servers@[k].0);
                    }
                }
                if servers@.len() > pre_all.len() {
                    assert(servers@[pre_all.len() as int].0 == t);
                }
                assert forall|k: int|
                    0 <= k < i + 1 implies ((#[trigger] targets@[k]) == self.id || exists|j: int|
                        0 <= j < servers@.len() && (#[trigger] servers@[j]).0
                            == targets@[k]) by {
                    if targets@[k] != self.id {
                        if k < i {
                            let j = choose|j: int|
                                0 <= j < pre_all.len() && (#[trigger] pre_all[j]).0
                                    == targets@[k];
                            assert(servers@[j].0 == targets@[k]);
                        } else {
                            assert(exists|j: int|
                                0 <= j < servers@.len() && (#[trigger] servers@[j]).0
                                    == targets@[k]);
                        }
                    }
                }
            }
            i = i + 1;
        }
        proof {
            assert(targets@.take(targets@.len() as int) =~= targets@);
            let l = ServerLeaderState { servers };
            assert forall|x: ServerId|
                #[trigger] l.spec_progress_of(x) is Some <==> ((self.config.value.is_member(x)
                || self.config.value.is_learner(x)) && x != self.id) by {
                if l.spec_progress_of(x) is Some {
                    let j = choose|j: int|
                        0 <= j < l.servers@.len() && (#[trigger] l.servers@[j]).0 == x;
                    assert(targets@.contains(x));
                    let w = choose|w: int| 0 <= w < targets@.len() && targets@[w] == x;
                    if w < self.config.value.members@.len() {
                        assert(self.config.value.members@[w] == x);
                    } else {
                        assert(self.config.value.learners@[w - self.config.value.members@.len()]
                            == x);
                    }
                }
                if (self.config.value.is_member(x) || self.config.value.is_learner(x)) && x
                    != self.id {
                    if self.config.value.is_member(x) {
                        let w = choose|w: int|
                            0 <= w < self.config.value.members@.len()
                                && self.config.value.members@[w] == x;
                        assert(targets@[w] == x);
                    } else {
                        let w = choose|w: int|
                            0 <= w < self.config.value.learners@.len()
                                && self.config.value.learners@[w] == x;
                        assert(targets@[self.config.value.members@.len() + w] == x);
                    }
                    let w2 = choose|w2: int| 0 <= w2 < targets@.len() && targets@[w2] == x;
                    assert(exists|j: int|
                        0 <= j < l.servers@.len() && (#[trigger] l.servers@[j]).0 == x);
                }
            }
        }
        self.state = ServerState::Leader(ServerLeaderState { servers });
        if self.meta.commit_index < last_log_index {
            // we inherit at least one uncommitted entry from a previous
            // term; a no-op under the new term lets it commit (a leader
            // never counts replicas for prior-term entries)
            let e = LogEntry {
                index: last_log_index + 1,
                term: self.meta.current_term,
                data: LogEntryData::Noop,
            };
            self.config.apply(&e, self.meta.commit_index);
            tick.new_entries = true;
            self.log.append(e);
        }
    }

    /// Makes this server a follower in the current term and re-enters the
    /// cycle (a single-member cluster immediately stands for election
    /// again).
    fn become_follower(&mut self, tick: &mut Tick)
        requires
            old(self).base_inv(),
            !(old(self).solo_member() && !old(self).can_be_leader_spec()),
            old(self).meta.current_term < u64::MAX,
            old(self).log.spec_last_index() + 1 < u64::MAX,
        ensures
            final(self).inv(),
            Self::step_safe(&*old(self), &*final(self)),
            Self::log_is_extension(&*old(self), &*final(self)),
            final(self).not_solo_corrupt(),
            tick_extends(*old(tick), *final(tick)),
            !old(self).solo_member() ==> {
                &&& final(self).meta == old(self).meta
                &&& final(self).log == old(self).log
                &&& final(self).config == old(self).config
                &&& final(self).state matches ServerState::Follower(f) && f.last_heartbeat
                    == old(tick).time && f.last_leader_id is None
                &&& final(tick).messages@ == old(tick).messages@
            },
            old(self).solo_member() ==> final(self).state is Leader && final(self).meta.current_term == old(self).meta.current_term + 1,
    {
        self.state = new_follower(tick.time);
        self.cycle(tick);
    }

    /// Observes a term seen in a remote request or response: a higher term
    /// than ours makes us an up-to-date follower with no vote cast.
    fn observe_term(&mut self, term: Term, tick: &mut Tick)
        requires
            old(self).inv(),
            old(self).not_solo_corrupt(),
            term > old(self).meta.current_term ==> term < u64::MAX,
            old(self).log.spec_last_index() + 1 < u64::MAX,
        ensures
            final(self).inv(),
            Self::step_safe(&*old(self), &*final(self)),
            Self::log_is_extension(&*old(self), &*final(self)),
            final(self).not_solo_corrupt(),
            final(self).meta.current_term >= term,
            tick_extends(*old(tick), *final(tick)),
            term <= old(self).meta.current_term ==> *final(self) == *old(self) && *final(tick)
                == *old(tick),
            term > old(self).meta.current_term ==> final(tick).meta,
            term > old(self).meta.current_term && !old(self).solo_member() ==> {
                &&& final(self).meta.current_term == term
                &&& final(self).meta.voted_for is None
                &&& final(self).meta.commit_index == old(self).meta.commit_index
                &&& final(self).log == old(self).log
                &&& final(self).config == old(self).config
                &&& final(self).state matches ServerState::Follower(f) && f.last_heartbeat
                    == old(tick).time
                &&& final(tick).messages@ == old(tick).messages@
            },
            term > old(self).meta.current_term && old(self).solo_member() ==> final(self).state is Leader && final(self).meta.current_term == term + 1,
    {
        if term > self.meta.current_term {
            self.meta.current_term = term;
            self.meta.voted_for = None;
            tick.write_meta();
            self.become_follower(tick);
        }
    }

    /// One pass of the module's heartbeat: fires or schedules elections for
    /// followers and candidates, promotes a candidate with a majority, and
    /// on the leader advances the commit index and replicates entries.
    /// Called at the end of every handler and by the host on timer expiry.
    #[verifier::rlimit(100)]
    #[verifier::spinoff_prover]
    pub fn cycle(&mut self, tick: &mut Tick)
        requires
            old(self).inv(),
            old(self).not_solo_corrupt(),
            old(self).meta.current_term < u64::MAX,
            old(self).log.spec_last_index() + 1 < u64::MAX,
        ensures
            final(self).inv(),
            Self::step_safe(&*old(self), &*final(self)),
            Self::log_is_extension(&*old(self), &*final(self)),
            final(self).not_solo_corrupt(),
            tick_extends(*old(tick), *final(tick)),
            (old(self).config.value.members@.len() == 0 || !old(self).config.value.is_member(
                old(self).id,
            )) ==> *final(self) == *old(self) && final(tick).next_tick == Some(1000u64) && final(tick).messages@ == old(tick).messages@,
            old(self).state is Leader ==> final(self).state is Leader && final(self).meta.current_term == old(self).meta.current_term && final(self).meta.voted_for == old(self).meta.voted_for && final(self).log == old(self).log,
            old(self).state matches ServerState::Follower(f) ==> ((old(self).config.value.is_member(old(self).id) && old(self).can_be_leader_spec() && old(self).config.value.members@.len() != 1 && elapsed_ms(old(tick).time, f.last_heartbeat)
                < f.election_timeout) ==> {
                &&& *final(self) == *old(self)
                &&& final(tick).next_tick == Some(
                    (f.election_timeout - elapsed_ms(old(tick).time, f.last_heartbeat)) as u64,
                )
                &&& final(tick).messages@ == old(tick).messages@
            }),
            (old(self).state is Follower && old(self).config.value.is_member(old(self).id) && !old(self).can_be_leader_spec()) ==> {
                &&& final(self).meta == old(self).meta
                &&& final(self).log == old(self).log
                &&& final(self).config == old(self).config
                &&& final(self).state matches ServerState::Follower(g) && g.last_heartbeat == old(tick).time && g.last_leader_id is None
                &&& final(tick).messages@ == old(tick).messages@
            },
            old(self).state is Candidate ==> (final(self).state is Candidate || final(self).state is Leader) && final(self).meta.voted_for == old(self).meta.voted_for,
            old(self).state matches ServerState::Candidate(c) ==> (elapsed_ms(
                old(tick).time,
                c.election_start,
            ) < c.election_timeout ==> final(self).meta.current_term == old(self).meta.current_term),
            (old(self).state is Follower && old(self).solo_member() && old(self).can_be_leader_spec()) ==> {
                &&& final(self).state is Leader
                &&& final(self).meta.current_term == old(self).meta.current_term + 1
                &&& final(self).meta.voted_for == Some(old(self).id)
            },
            // a follower whose election timeout ran out stands for
            // election: the term rises by one, it votes for itself, and the
            // vote request goes out to the other members
            old(self).state matches ServerState::Follower(f) ==> ((old(self).config.value.is_member(old(self).id) && old(self).can_be_leader_spec() && old(self).config.value.members@.len() >= 2 && elapsed_ms(old(tick).time, f.last_heartbeat) >= f.election_timeout) ==> {
                &&& final(self).state is Candidate
                &&& final(self).meta.current_term == old(self).meta.current_term + 1
                &&& final(self).meta.voted_for == Some(old(self).id)
                &&& final(tick).meta
                &&& final(tick).messages@.len() == old(tick).messages@.len() + 1
                &&& ({
                    let m = final(tick).messages@.last();
                    &&& m.body matches MessageBody::RequestVote(req)
                    &&& req == (RequestVoteRequest {
                        term: (old(self).meta.current_term + 1) as u64,
                        candidate_id: old(self).id,
                        last_log_index: old(self).log.spec_last_index() as u64,
                        last_log_term: old(self).log.spec_last_term(),
                    })
                    &&& forall|x: ServerId|
                        #[trigger] m.to@.contains(x) <==> (old(self).config.value.is_member(x)
                            && x != old(self).id)
                })
                &&& final(tick).next_tick is Some
            }),
            // a candidate holding a majority of the votes becomes leader at
            // once, appending a no-op when an uncommitted tail needs its
            // term to commit
            old(self).state matches ServerState::Candidate(c) ==> ((1 + c.votes_received@.len() >= old(self).spec_majority() && old(self).config.value.members@.len() > 0 && old(self).config.value.is_member(old(self).id)) ==> {
                &&& final(self).state is Leader
                &&& final(self).meta.current_term == old(self).meta.current_term
                &&& (old(self).meta.commit_index == old(self).log.spec_last_index() ==> final(self).log == old(self).log)
                &&& (old(self).meta.commit_index < old(self).log.spec_last_index() ==> final(self).log@ == old(self).log@.push(
                    crate::protos::EntryModel {
                        index: (old(self).log.spec_last_index() + 1) as u64,
                        term: old(self).meta.current_term,
                        data: crate::protos::EntryDataModel::Noop,
                    },
                ) && final(tick).new_entries)
                &&& (final(self).state matches ServerState::Leader(l2) ==> forall|x: ServerId|
                    #[trigger] l2.spec_progress_of(x) matches Some(p) ==> p.next_index == old(self).log.spec_last_index() + 1 && p.match_index == 0)
                &&& final(tick).next_tick is Some
            }),
            // a candidate still waiting on votes, with time on the clock,
            // changes nothing and sleeps out the rest of its round
            old(self).state matches ServerState::Candidate(c) ==> ((1 + c.votes_received@.len() < old(self).spec_majority() && elapsed_ms(old(tick).time, c.election_start) < c.election_timeout && old(self).config.value.members@.len() > 0 && old(self).config.value.is_member(old(self).id)) ==> {
                &&& *final(self) == *old(self)
                &&& final(tick).messages@ == old(tick).messages@
                &&& final(tick).next_tick == Some(
                    (c.election_timeout - elapsed_ms(old(tick).time, c.election_start)) as u64,
                )
            }),
            // a candidate whose round timed out without a majority holds
            // the next one; any seen rejection forces a fresh term
            old(self).state matches ServerState::Candidate(c) ==> ((1 + c.votes_received@.len() < old(self).spec_majority() && elapsed_ms(old(tick).time, c.election_start) >= c.election_timeout && old(self).config.value.members@.len() >= 2 && old(self).config.value.is_member(old(self).id)) ==> {
                &&& final(self).state is Candidate
                &&& final(self).meta.current_term == old(self).meta.current_term + (if c.some_rejected { 1int } else { 0int })
                &&& final(self).meta.voted_for == Some(old(self).id)
                &&& final(tick).messages@.len() == old(tick).messages@.len() + 1
                &&& ({
                    let m = final(tick).messages@.last();
                    &&& m.body matches MessageBody::RequestVote(req)
                    &&& req.term == final(self).meta.current_term
                    &&& req.candidate_id == old(self).id
                    &&& forall|x: ServerId|
                        #[trigger] m.to@.contains(x) <==> (old(self).config.value.is_member(x)
                            && x != old(self).id)
                })
                &&& final(tick).next_tick is Some
            }),
            // on the leader the pass advances the commit index exactly as
            // far as a majority allows, then replicates to every other
            // server
            old(self).state matches ServerState::Leader(l) ==> ((old(self).config.value.members@.len() > 0 && old(self).config.value.is_member(old(self).id)) ==> {
                &&& (final(self).meta.commit_index > old(self).meta.commit_index ==> old(self).spec_committable(l, final(self).meta.commit_index as int))
                &&& (forall|ci: int|
                    final(self).meta.commit_index < ci <= old(self).log.spec_last_index() ==> !old(self).spec_committable(l, ci))
                &&& forall|x: ServerId|
                    Self::replicated_for(
                        l,
                        spec_leader_state(final(self).state),
                        old(self).config.value,
                        old(self).id,
                        old(self).log.spec_last_index(),
                        old(tick).time,
                        final(tick).messages@,
                        old(tick).messages@.len() as int,
                        x,
                    )
                &&& final(tick).next_tick is Some
            }),
    {
        // With no members, or with this server outside the voting set, there
        // is nothing to drive; wait.
        if self.config.value.members.len() == 0 || !self.config.value.contains_member(self.id) {
            tick.next_tick = Some(1000);
            return ;
        }
        // Follower: wait out the election timeout, then stand for election.
        // The sole member of a single-node cluster elects itself at once.
        let follower_info: Option<ServerFollowerState> = match &self.state {
            ServerState::Follower(f) => Some(*f),
            _ => None,
        };
        if let Some(f) = follower_info {
            if !self.can_be_leader() {
                // This server committed entries its log no longer reaches;
                // it cannot lead until resynced, so defer the election.  (A
                // single-member cluster could never progress from here; the
                // precondition excludes it.)
                self.state = new_follower(tick.time);
                return ;
            }
            let elapsed = if tick.time >= f.last_heartbeat {
                tick.time - f.last_heartbeat
            } else {
                0
            };
            if elapsed >= f.election_timeout || self.config.value.members.len() == 1 {
                proof {
                    // with a second member there is somebody to ask
                    if self.config.value.members@.len() >= 2 {
                        if self.config.value.members@[0] != self.id {
                            assert(self.config.value.is_member(self.config.value.members@[0]));
                        } else {
                            assert(self.config.value.is_member(self.config.value.members@[1]));
                        }
                    }
                }
                self.enter_election(tick);
            } else {
                tick.next_tick = Some(f.election_timeout - elapsed);
                return ;
            }
        }
        // Candidate: a majority of votes makes us leader; an elapsed timeout
        // starts the next election round.
        let cand_info: Option<(u128, u64, u64)> = match &self.state {
            ServerState::Candidate(c) => Some(
                (c.votes_received.len() as u128 + 1, c.election_start, c.election_timeout),
            ),
            _ => None,
        };
        let ghost mut promote_snap: ConsensusModule = *self;
        if let Some((vote_count, election_start, election_timeout)) = cand_info {
            let majority = self.majority_size() as u128;
            proof {
                if self.config.value.members@.len() >= 2 {
                    assert(self.spec_majority() >= 2);
                }
            }
            if vote_count >= majority {
                self.become_leader(tick);
                proof {
                    promote_snap = *self;
                }
            } else {
                let elapsed = if tick.time >= election_start {
                    tick.time - election_start
                } else {
                    0
                };
                if elapsed >= election_timeout {
                    proof {
                        if self.config.value.members@.len() >= 2 {
                            if self.config.value.members@[0] != self.id {
                                assert(self.config.value.is_member(
                                    self.config.value.members@[0],
                                ));
                            } else {
                                assert(self.config.value.is_member(
                                    self.config.value.members@[1],
                                ));
                            }
                        }
                    }
                    self.enter_election(tick);
                    if 1 >= majority {
                        self.become_leader(tick);
                        proof {
                            promote_snap = *self;
                        }
                    } else {
                        let fresh_timeout = match &self.state {
                            ServerState::Candidate(c) => c.election_timeout,
                            _ => 0,
                        };
                        tick.next_tick = Some(fresh_timeout);
                        return ;
                    }
                } else {
                    tick.next_tick = Some(election_timeout - elapsed);
                    return ;
                }
            }
        }
        // Leader: advance the commit index where a majority allows, then
        // replicate to every other server.
        let is_leader = match &self.state {
            ServerState::Leader(_) => true,
            _ => false,
        };
        if is_leader {
            let nci = match &self.state {
                ServerState::Leader(s) => self.find_next_commit_index(s),
                _ => None,
            };
            if let Some(ci) = nci {
                self.update_commited(ci, tick);
            }
            let mut next_heartbeat = self.replicate_entries(tick);
            // the sole server of a single-node cluster needs no heartbeats
            if self.config.value.members.len() == 1 && self.config.value.learners.len() == 0 {
                next_heartbeat = 2000;
            }
            tick.next_tick = Some(next_heartbeat);
            proof {
                // a leader fresh out of an election still shows the initial
                // progress shape: replication marks requests in flight but
                // never moves next or match indexes
                if old(self).state is Candidate {
                    let lp = spec_leader_state(promote_snap.state);
                    let cfg = old(self).config.value;
                    match &self.state {
                        ServerState::Leader(l2) => {
                            assert forall|x: ServerId|
                                (#[trigger] l2.spec_progress_of(x) matches Some(p)
                                    ==> p.next_index == old(self).log.spec_last_index() + 1
                                    && p.match_index == 0) by {
                                if l2.spec_progress_of(x) is Some {
                                    assert(Self::replicated_for(
                                        lp,
                                        spec_leader_state(self.state),
                                        cfg,
                                        old(self).id,
                                        promote_snap.log.spec_last_index(),
                                        old(tick).time,
                                        tick.messages@,
                                        old(tick).messages@.len() as int,
                                        x,
                                    ));
                                    if (cfg.is_member(x) || cfg.is_learner(x)) && x != old(self).id {
                                        assert(lp.spec_progress_of(x) is Some);
                                    } else {
                                        assert(l2.spec_progress_of(x) == lp.spec_progress_of(x));
                                    }
                                }
                            }
                        },
                        _ => {},
                    }
                }
            }
        }
    }
}

impl ConsensusModule {
    /// Proposes a new state machine command from an opaque data packet.
    pub fn propose_command(&mut self, data: Vec<u8>, out: &mut Tick) -> (r: ProposeResult)
        requires
            old(self).inv(),
            old(self).meta.current_term < u64::MAX,
            old(self).log.spec_last_index() + 2 < u64::MAX,
        ensures
            final(self).inv(),
            Self::step_safe(&*old(self), &*final(self)),
            Self::log_is_extension(&*old(self), &*final(self)),
            tick_extends(*old(out), *final(out)),
            old(self).not_solo_corrupt() ==> final(self).not_solo_corrupt(),
            final(self).meta.current_term == old(self).meta.current_term,
            !(old(self).state is Leader) ==> r is Err && *final(self) == *old(self),
            old(self).state is Leader ==> {
                &&& r matches Ok(p)
                &&& p.term == old(self).meta.current_term
                &&& p.index == old(self).log.spec_last_index() + 1
                &&& final(self).log@ == old(self).log@.push(
                    crate::protos::EntryModel {
                        index: p.index,
                        term: p.term,
                        data: crate::protos::EntryDataModel::Command(data@),
                    },
                )
                &&& final(out).new_entries
                &&& (old(self).state matches ServerState::Leader(l) ==> (final(self).state matches ServerState::Leader(l2) && forall|x: ServerId|
                    (#[trigger] l.spec_progress_of(x) matches Some(px) ==> l2.spec_progress_of(x) matches Some(qx) && qx.match_index == px.match_index && qx.next_index == px.next_index)))
            },
    {
        self.propose_entry(LogEntryData::Command(data), out)
    }

    /// Proposes an entry that does nothing but occupy a log index.
    pub fn propose_noop(&mut self, out: &mut Tick) -> (r: ProposeResult)
        requires
            old(self).inv(),
            old(self).meta.current_term < u64::MAX,
            old(self).log.spec_last_index() + 2 < u64::MAX,
        ensures
            final(self).inv(),
            Self::step_safe(&*old(self), &*final(self)),
            Self::log_is_extension(&*old(self), &*final(self)),
            tick_extends(*old(out), *final(out)),
            old(self).not_solo_corrupt() ==> final(self).not_solo_corrupt(),
            final(self).meta.current_term == old(self).meta.current_term,
            !(old(self).state is Leader) ==> r is Err && *final(self) == *old(self),
            old(self).state is Leader ==> {
                &&& r matches Ok(p)
                &&& p.term == old(self).meta.current_term
                &&& p.index == old(self).log.spec_last_index() + 1
                &&& final(self).log@ == old(self).log@.push(
                    crate::protos::EntryModel {
                        index: p.index,
                        term: p.term,
                        data: crate::protos::EntryDataModel::Noop,
                    },
                )
                &&& final(out).new_entries
                &&& (old(self).state matches ServerState::Leader(l) ==> (final(self).state matches ServerState::Leader(l2) && forall|x: ServerId|
                    (#[trigger] l.spec_progress_of(x) matches Some(px) ==> l2.spec_progress_of(x) matches Some(qx) && qx.match_index == px.match_index && qx.next_index == px.next_index)))
            },
    {
        self.propose_entry(LogEntryData::Noop, out)
    }

    /// Proposes one entry.  Only the leader accepts proposals; a follower
    /// answers with a hint towards the server it believes leads.  A
    /// configuration change is deferred while an earlier one is still
    /// uncommitted.  An accepted entry is appended under the current term
    /// and replication starts immediately.
    pub fn propose_entry(&mut self, data: LogEntryData, out: &mut Tick) -> (r: ProposeResult)
        requires
            old(self).inv(),
            old(self).meta.current_term < u64::MAX,
            old(self).log.spec_last_index() + 2 < u64::MAX,
        ensures
            final(self).inv(),
            Self::step_safe(&*old(self), &*final(self)),
            Self::log_is_extension(&*old(self), &*final(self)),
            tick_extends(*old(out), *final(out)),
            old(self).not_solo_corrupt() ==> final(self).not_solo_corrupt(),
            final(self).meta.current_term == old(self).meta.current_term,
            final(self).meta.voted_for == old(self).meta.voted_for,
            old(self).state matches ServerState::Follower(s) ==> r == Err::<
                Proposal,
                ProposeError,
            >(
                ProposeError::NotLeader {
                    leader_hint: (if s.last_leader_id is Some {
                        s.last_leader_id
                    } else {
                        old(self).meta.voted_for
                    }),
                },
            ) && *final(self) == *old(self) && *final(out) == *old(out),
            old(self).state is Candidate ==> r == Err::<Proposal, ProposeError>(
                ProposeError::NotLeader { leader_hint: None },
            ) && *final(self) == *old(self) && *final(out) == *old(out),
            old(self).state is Leader ==> final(self).state is Leader && (match r {
                Ok(p) => {
                    &&& p.term == old(self).meta.current_term
                    &&& p.index == old(self).log.spec_last_index() + 1
                    &&& final(self).log@ == old(self).log@.push(
                        crate::protos::EntryModel { index: p.index, term: p.term, data: data@ },
                    )
                    &&& final(self).log.spec_last_index() == old(self).log.spec_last_index() + 1
                    &&& final(out).new_entries
                    &&& !(data is Config && old(self).config.spec_pending_last() is Some)
                    &&& (old(self).state matches ServerState::Leader(l) ==> (final(self).state matches ServerState::Leader(l2) && forall|x: ServerId|
                        (#[trigger] l.spec_progress_of(x) matches Some(px) ==> l2.spec_progress_of(x) matches Some(qx) && qx.match_index == px.match_index && qx.next_index == px.next_index)))
                },
                Err(e) => {
                    &&& e matches ProposeError::RetryAfter(p)
                    &&& data is Config
                    &&& old(self).config.spec_pending_last() == Some(p.index)
                    &&& old(self).log.spec_term_at(p.index as int) == Some(p.term)
                    &&& *final(self) == *old(self)
                    &&& *final(out) == *old(out)
                },
            }),
    {
        let is_leader = match &self.state {
            ServerState::Leader(_) => true,
            _ => false,
        };
        if is_leader {
            let index = self.prev_plus_len() + 1;
            let term = self.meta.current_term;
            let is_config = match &data {
                LogEntryData::Config(_) => true,
                _ => false,
            };
            if is_config {
                // a configuration change waits until the previous one commits
                match self.config.pending_last_change() {
                    Some(last_change) => {
                        let t = match self.log.term(last_change) {
                            Some(t) => t,
                            None => {
                                proof {
                                    assert(false);  // pending indexes stay inside the log
                                }
                                0
                            },
                        };
                        return Err(
                            ProposeError::RetryAfter(Proposal { index: last_change, term: t }),
                        );
                    },
                    None => {},
                }
            }
            out.new_entries = true;
            let e = LogEntry { index, term, data };
            // the change takes effect as soon as it lands in the log
            self.config.apply(&e, self.meta.commit_index);
            self.log.append(e);
            let ghost pre_cycle = *self;
            let ghost out_pre = *out;
            self.cycle(out);
            proof {
                // replication never moves a follower's match or next index;
                // it only marks requests in flight
                if old(self).state is Leader {
                    let l = spec_leader_state(old(self).state);
                    match &self.state {
                        ServerState::Leader(l2) => {
                            assert forall|x: ServerId|
                                (#[trigger] l.spec_progress_of(x) matches Some(px)
                                    ==> l2.spec_progress_of(x) matches Some(qx) && qx.match_index
                                    == px.match_index && qx.next_index == px.next_index) by {
                                if l.spec_progress_of(x) is Some {
                                    if pre_cycle.config.value.members@.len() > 0
                                        && pre_cycle.config.value.is_member(pre_cycle.id) {
                                        assert(Self::replicated_for(
                                            l,
                                            spec_leader_state(self.state),
                                            pre_cycle.config.value,
                                            pre_cycle.id,
                                            pre_cycle.log.spec_last_index(),
                                            out_pre.time,
                                            out.messages@,
                                            out_pre.messages@.len() as int,
                                            x,
                                        ));
                                    } else {
                                        assert(*self == pre_cycle);
                                    }
                                }
                            }
                        },
                        _ => {},
                    }
                }
            }
            Ok(Proposal { term, index })
        } else {
            match &self.state {
                ServerState::Follower(s) => Err(
                    ProposeError::NotLeader {
                        leader_hint: (match s.last_leader_id {
                            Some(x) => Some(x),
                            None => self.meta.voted_for,
                        }),
                    },
                ),
                _ => Err(ProposeError::NotLeader { leader_hint: None }),
            }
        }
    }
}

impl ConsensusModule {
    /// Handles another server's request that we vote for it.  A granted vote
    /// is recorded in the metadata, which the host must persist before the
    /// response is sent: the response comes wrapped in
    /// [`MustPersistMetadata`].
    pub fn request_vote(&mut self, req: RequestVoteRequest, tick: &mut Tick) -> (r:
        MustPersistMetadata<RequestVoteResponse>)
        requires
            old(self).inv(),
            old(self).not_solo_corrupt(),
            req.candidate_id != old(self).id,
            req.term > old(self).meta.current_term ==> req.term < u64::MAX,
            old(self).log.spec_last_index() + 1 < u64::MAX,
        ensures
            final(self).inv(),
            final(self).not_solo_corrupt(),
            Self::step_safe(&*old(self), &*final(self)),
            Self::log_is_extension(&*old(self), &*final(self)),
            tick_extends(*old(tick), *final(tick)),
            final(self).meta.current_term >= req.term,
            r.view_inner().term == final(self).meta.current_term,
            !(req.term > old(self).meta.current_term && old(self).solo_member()) ==> {
                &&& r.view_inner().vote_granted == old(self).pre_vote_grant(req)
                &&& final(self).meta.current_term == (if req.term > old(self).meta.current_term {
                    req.term
                } else {
                    old(self).meta.current_term
                })
                &&& final(self).log == old(self).log
                &&& final(self).meta.commit_index == old(self).meta.commit_index
            },
            (req.term > old(self).meta.current_term && old(self).solo_member()) ==> !r.view_inner().vote_granted,
            r.view_inner().vote_granted ==> final(self).meta.voted_for == Some(req.candidate_id)
                && final(tick).meta,
            // a granted vote also restarts the follower's election timer, so
            // the new leader can count on an initial heartbeat window
            r.view_inner().vote_granted ==> {
                &&& final(self).state matches ServerState::Follower(f)
                &&& f.last_heartbeat == old(tick).time
            },
            r.view_inner().vote_granted && req.term == old(self).meta.current_term ==> (old(self).meta.voted_for is None || old(self).meta.voted_for == Some(req.candidate_id)),
            // a rejection in our own or an older term changes nothing at all
            !r.view_inner().vote_granted && req.term <= old(self).meta.current_term ==> *final(self)
                == *old(self) && *final(tick) == *old(tick),
            // a rejection that still raised our term leaves no vote cast
            !r.view_inner().vote_granted && req.term > old(self).meta.current_term && !old(self).solo_member() ==> final(self).meta.voted_for is None,
    {
        self.observe_term(req.term, tick);
        let res = self.pre_vote(req);
        if res.vote_granted {
            // reset the follower timer so a fresh leader can rely on an
            // initial heartbeat window for read queries
            let new_state: Option<ServerFollowerState> = match &self.state {
                ServerState::Follower(f) => Some(
                    ServerFollowerState { last_heartbeat: tick.time, ..*f },
                ),
                _ => None,
            };
            match new_state {
                Some(f) => {
                    self.state = ServerState::Follower(f);
                },
                None => {
                    proof {
                        // granting implies we are a follower: a candidate or
                        // leader voted for itself in its own term, and a
                        // higher request term demoted us already
                        assert(self.pre_vote_grant(req));
                        assert(false);
                    }
                },
            }
            self.meta.voted_for = Some(req.candidate_id);
            tick.write_meta();
        }
        MustPersistMetadata::new(res)
    }

    /// Handles the response to a vote request this module issued: responses
    /// from an older election round are ignored; grants and rejections from
    /// the current one are recorded and may complete the election.
    pub fn request_vote_callback(
        &mut self,
        from_id: ServerId,
        resp: RequestVoteResponse,
        tick: &mut Tick,
    )
        requires
            old(self).inv(),
            old(self).not_solo_corrupt(),
            old(self).meta.current_term < u64::MAX,
            resp.term > old(self).meta.current_term ==> resp.term < u64::MAX,
            old(self).log.spec_last_index() + 1 < u64::MAX,
        ensures
            final(self).inv(),
            final(self).not_solo_corrupt(),
            Self::step_safe(&*old(self), &*final(self)),
            Self::log_is_extension(&*old(self), &*final(self)),
            tick_extends(*old(tick), *final(tick)),
            final(self).meta.current_term >= resp.term,
            resp.term < old(self).meta.current_term ==> *final(self) == *old(self) && *final(tick)
                == *old(tick),
            (resp.term == old(self).meta.current_term && !(old(self).state is Candidate) && from_id
                != old(self).id) ==> *final(self) == *old(self),
            // a response of our candidate round is recorded: a grant joins
            // the vote set (and a majority completes the election), a
            // rejection pins `some_rejected`
            old(self).state matches ServerState::Candidate(c) ==> ((resp.term == old(self).meta.current_term && from_id != old(self).id && old(self).config.value.members@.len() > 0 && old(self).config.value.is_member(old(self).id)) ==> {
                let grew = resp.vote_granted && !c.votes_received@.contains(from_id);
                let newvotes: int = if grew {
                    c.votes_received@.len() as int + 1
                } else {
                    c.votes_received@.len() as int
                };
                &&& (resp.vote_granted && 1 + newvotes >= old(self).spec_majority() ==> final(self).state is Leader && final(self).meta.current_term == old(self).meta.current_term)
                &&& (1 + newvotes < old(self).spec_majority() && elapsed_ms(
                    old(tick).time,
                    c.election_start,
                ) < c.election_timeout ==> {
                    &&& final(self).meta == old(self).meta
                    &&& final(self).log == old(self).log
                    &&& final(self).state matches ServerState::Candidate(c2)
                    &&& (forall|x: ServerId|
                        #[trigger] c2.votes_received@.contains(x) <==> (c.votes_received@.contains(
                            x,
                        ) || (resp.vote_granted && x == from_id)))
                    &&& c2.some_rejected == (c.some_rejected || !resp.vote_granted)
                    &&& c2.election_start == c.election_start
                    &&& c2.election_timeout == c.election_timeout
                })
            }),
    {
        self.observe_term(resp.term, tick);
        if self.meta.current_term != resp.term {
            return ;
        }
        if from_id == self.id {
            // a vote for ourselves is counted implicitly, never through the
            // callback
            return ;
        }
        let was_candidate = match &mut self.state {
            ServerState::Candidate(c) => {
                if resp.vote_granted {
                    c.add_vote(from_id);
                } else {
                    c.some_rejected = true;
                }
                true
            },
            _ => false,
        };
        if was_candidate {
            // a majority may have been reached
            self.cycle(tick);
        }
    }

    /// What the append-entries callback needs of its inputs when we are
    /// still leader in the response's term: the follower is known, reported
    /// indexes stay inside our log, and a roll-back has room.  (The module
    /// trusts its host to pair callbacks with the requests it handed out.)
    pub open spec fn append_entries_callback_ok(
        &self,
        from_id: ServerId,
        last_index: LogIndex,
        resp: AppendEntriesResponse,
    ) -> bool {
        self.state matches ServerState::Leader(l) ==> (resp.term <= self.meta.current_term ==> {
            &&& l.spec_progress_of(from_id) is Some
            &&& resp.success ==> self.log.prev_index <= last_index <= self.log.spec_last_index()
            &&& !resp.success ==> (match resp.last_log_index {
                Some(idx) => self.log.prev_index <= idx <= self.log.spec_last_index(),
                None => l.spec_progress_of(from_id).unwrap().next_index > self.log.prev_index + 1,
            })
        })
    }

    /// Handles a follower's answer to an append-entries request;
    /// `last_index` is the index of the last entry that the request carried.
    /// Success advances the follower's progress; failure rolls its next
    /// index back.  A follower whose log runs past ours makes us propose a
    /// no-op if our term has no entry yet, so its extra entries get
    /// resolved.
    pub fn append_entries_callback(
        &mut self,
        from_id: ServerId,
        last_index: LogIndex,
        resp: AppendEntriesResponse,
        tick: &mut Tick,
    )
        requires
            old(self).inv(),
            old(self).not_solo_corrupt(),
            old(self).meta.current_term < u64::MAX,
            resp.term > old(self).meta.current_term ==> resp.term < u64::MAX && !old(self).solo_member(),
            old(self).log.spec_last_index() + 2 < u64::MAX,
            old(self).append_entries_callback_ok(from_id, last_index, resp),
        ensures
            final(self).inv(),
            final(self).not_solo_corrupt(),
            Self::step_safe(&*old(self), &*final(self)),
            Self::log_is_extension(&*old(self), &*final(self)),
            tick_extends(*old(tick), *final(tick)),
            final(self).meta.current_term >= resp.term,
            final(self).meta.current_term == (if resp.term > old(self).meta.current_term {
                resp.term
            } else {
                old(self).meta.current_term
            }),
            // while we are still leader, the follower's progress advances on
            // success and rolls back on failure; and a follower whose log
            // runs past ours while our term has no entry yet draws a no-op
            old(self).state matches ServerState::Leader(l) ==> (resp.term <= old(self).meta.current_term ==> (l.spec_progress_of(from_id) matches Some(p) && {
                let advanced = resp.success && last_index > p.match_index;
                let new_match = if advanced {
                    last_index as int
                } else {
                    p.match_index as int
                };
                let new_next: int = if resp.success {
                    if advanced {
                        last_index + 1
                    } else {
                        p.next_index as int
                    }
                } else {
                    match resp.last_log_index {
                        Some(idx) => idx + 1,
                        None => p.next_index - 1,
                    }
                };
                let noop = resp.success && (match resp.last_log_index {
                    Some(idx) => idx > old(self).log.spec_last_index()
                        && old(self).log.spec_last_term() != old(self).meta.current_term,
                    None => false,
                });
                &&& final(self).state matches ServerState::Leader(l2)
                &&& l2.spec_progress_of(from_id) matches Some(q)
                &&& q.match_index == new_match
                &&& q.next_index == new_next
                &&& (noop ==> final(self).log@ == old(self).log@.push(
                    crate::protos::EntryModel {
                        index: (old(self).log.spec_last_index() + 1) as u64,
                        term: old(self).meta.current_term,
                        data: crate::protos::EntryDataModel::Noop,
                    },
                ) && final(tick).new_entries)
                &&& (!noop ==> final(self).log == old(self).log)
            })),
    {
        self.observe_term(resp.term, tick);
        let is_leader = match &self.state {
            ServerState::Leader(_) => true,
            _ => false,
        };
        if !is_leader {
            return ;
        }
        let mut should_noop = false;
        let progress = match self.leader_get(from_id) {
            Some(p) => p,
            None => {
                proof {
                    assert(false);  // excluded: the follower has a progress entry
                }
                ServerProgress { next_index: 1, match_index: 0, last_sent: None,
                    request_pending: false }
            },
        };
        let mut p2 = progress;
        if resp.success {
            if last_index > progress.match_index {
                p2.match_index = last_index;
                p2.next_index = last_index + 1;
            }
            // a follower with a longer log than ours was, or spoke to, a
            // former leader; a no-op under our term truncates its tail
            match resp.last_log_index {
                Some(idx) => {
                    let last_log_index = self.prev_plus_len();
                    let last_log_term = match self.log.term(last_log_index) {
                        Some(t) => t,
                        None => 0,  // unreachable: the last index always has a term
                    };
                    proof {
                        assert(self.log.spec_term_at(self.log.spec_last_index()) == Some(
                            self.log.spec_last_term(),
                        ));
                    }
                    if idx > last_log_index && last_log_term != self.meta.current_term {
                        should_noop = true;
                    }
                },
                None => {},
            }
        } else {
            match resp.last_log_index {
                Some(idx) => {
                    p2.next_index = idx + 1;
                },
                None => {
                    p2.next_index = p2.next_index - 1;
                },
            }
        }
        p2.request_pending = false;
        self.leader_put(from_id, p2);
        let ghost pre_cycle = *self;
        let ghost tick_pre = *tick;
        if should_noop {
            match self.propose_noop(tick) {
                Ok(_) => {},
                Err(_) => {
                    proof {
                        assert(false);  // a leader's no-op proposal never fails
                    }
                },
            }
        } else {
            // something above changed; let the cycler dispatch any requests
            self.cycle(tick);
        }
        proof {
            // neither a no-op proposal nor a replication pass moves any
            // follower's match or next index
            let lm = spec_leader_state(pre_cycle.state);
            match &self.state {
                ServerState::Leader(l2) => {
                    assert forall|x: ServerId|
                        (#[trigger] lm.spec_progress_of(x) matches Some(px)
                            ==> l2.spec_progress_of(x) matches Some(qx) && qx.match_index
                            == px.match_index && qx.next_index == px.next_index) by {
                        if lm.spec_progress_of(x) is Some {
                            let px = lm.spec_progress_of(x).unwrap();
                            let cfg = pre_cycle.config.value;
                            if !should_noop {
                                if cfg.members@.len() > 0 && cfg.is_member(pre_cycle.id) {
                                    assert(Self::replicated_for(
                                        lm,
                                        spec_leader_state(self.state),
                                        cfg,
                                        pre_cycle.id,
                                        pre_cycle.log.spec_last_index(),
                                        tick_pre.time,
                                        tick.messages@,
                                        tick_pre.messages@.len() as int,
                                        x,
                                    ));
                                    if (cfg.is_member(x) || cfg.is_learner(x)) && x
                                        != pre_cycle.id {
                                        if Self::needs_request(
                                            px,
                                            pre_cycle.log.spec_last_index(),
                                            tick_pre.time,
                                        ) {
                                            assert(l2.spec_progress_of(x) == Some(
                                                Self::sent_progress(px, tick_pre.time),
                                            ));
                                        } else {
                                            assert(l2.spec_progress_of(x) == Some(px));
                                        }
                                    } else {
                                        assert(l2.spec_progress_of(x)
                                            == lm.spec_progress_of(x));
                                    }
                                } else {
                                    assert(*self == pre_cycle);
                                }
                            }
                        }
                    }
                },
                _ => {},
            }
        }
    }

    /// Handles the lack of a response (an error or timeout) for an
    /// append-entries request sent to `from_id`: the request is no longer in
    /// flight.
    pub fn append_entries_noresponse(&mut self, from_id: ServerId, tick: &mut Tick)
        requires
            old(self).inv(),
            old(self).state matches ServerState::Leader(l) ==> l.spec_progress_of(
                from_id,
            ) is Some,
        ensures
            final(self).inv(),
            Self::step_safe(&*old(self), &*final(self)),
            Self::log_is_extension(&*old(self), &*final(self)),
            final(self).meta == old(self).meta,
            final(self).log == old(self).log,
            final(self).config == old(self).config,
            *final(tick) == *old(tick),
            !(old(self).state is Leader) ==> *final(self) == *old(self),
            // the request to `from_id` is no longer in flight; nothing else
            // moves
            old(self).state matches ServerState::Leader(l) ==> (l.spec_progress_of(from_id) matches Some(p) && {
                &&& final(self).state matches ServerState::Leader(l2)
                &&& l2.spec_progress_of(from_id) == Some(ServerProgress { request_pending: false, ..p })
                &&& (forall|x: ServerId|
                    x != from_id ==> #[trigger] l2.spec_progress_of(x) == l.spec_progress_of(x))
            }),
    {
        let is_leader = match &self.state {
            ServerState::Leader(_) => true,
            _ => false,
        };
        if is_leader {
            let progress = match self.leader_get(from_id) {
                Some(p) => p,
                None => {
                    proof {
                        assert(false);  // excluded: the follower has a progress entry
                    }
                    ServerProgress { next_index: 1, match_index: 0, last_sent: None,
                        request_pending: false }
                },
            };
            self.leader_put(from_id, ServerProgress { request_pending: false, ..progress });
        }
    }

    /// Handles a leadership-transfer hint: time out at once and start an
    /// election.
    pub fn timeout_now(&mut self, req: TimeoutNow, tick: &mut Tick) -> (r: Result<(), RaftError>)
        requires
            old(self).inv(),
            old(self).can_be_leader_spec(),
            old(self).meta.current_term + 1 < u64::MAX,
            old(self).log.spec_last_index() + 1 < u64::MAX,
        ensures
            final(self).inv(),
            Self::step_safe(&*old(self), &*final(self)),
            Self::log_is_extension(&*old(self), &*final(self)),
            tick_extends(*old(tick), *final(tick)),
            r is Ok,
            final(self).state is Candidate || final(self).state is Leader,
            final(self).meta.voted_for == Some(old(self).id),
            final(self).meta.current_term <= old(self).meta.current_term + 1,
            // with other members to ask, exactly one vote request goes out
            (exists|x: ServerId|
                #[trigger] old(self).config.value.is_member(x) && x != old(self).id) ==> {
                &&& final(tick).messages@.len() == old(tick).messages@.len() + 1
                &&& ({
                    let m = final(tick).messages@.last();
                    &&& m.body matches MessageBody::RequestVote(req)
                    &&& req.term == final(self).meta.current_term
                    &&& req.candidate_id == old(self).id
                    &&& forall|x: ServerId|
                        #[trigger] m.to@.contains(x) <==> (old(self).config.value.is_member(x)
                            && x != old(self).id)
                })
            },
    {
        self.enter_election(tick);
        proof {
            if self.config.value.members@.len() >= 2 {
                assert(self.spec_majority() >= 2);
            }
        }
        self.cycle(tick);
        Ok(())
    }

    /// Builds the consensus module from the state the host recovered from
    /// disk: the id, the persisted metadata, the committed configuration
    /// snapshot, and the log.  The inputs are reconciled: newer terms in the
    /// log raise the current term, a newer snapshot raises the commit index,
    /// and the configuration is replayed up to the end of the log.  The
    /// module starts as a follower with a fresh election timeout.
    pub fn new(
        id: ServerId,
        meta: Metadata,
        config_snapshot: ConfigurationSnapshot,
        log: LogStore,
        now: u64,
    ) -> (r: ConsensusModule)
        requires
            log.wf(),
            config_snapshot.data.wf(),
            config_snapshot.last_applied >= log.prev_index,
            config_snapshot.last_applied < u64::MAX,
            log.spec_last_index() < u64::MAX,
        ensures
            r.inv(),
            r.id == id,
            r.log == log,
            r.meta.current_term == (if log.spec_last_term() > meta.current_term {
                log.spec_last_term()
            } else {
                meta.current_term
            }),
            r.meta.voted_for == (if log.spec_last_term() > meta.current_term {
                None
            } else {
                meta.voted_for
            }),
            r.meta.commit_index == (if config_snapshot.last_applied > meta.commit_index {
                config_snapshot.last_applied
            } else {
                meta.commit_index
            }),
            r.state matches ServerState::Follower(f) && f.last_heartbeat == now
                && f.last_leader_id is None && ELECTION_TIMEOUT_MIN <= f.election_timeout
                < ELECTION_TIMEOUT_MAX,
            // the configuration reflects every log entry past the snapshot:
            // the snapshot's roles with the log's changes replayed onto them
            forall|x: ServerId|
                #[trigger] r.config.value.is_member(x) == spec_roles_after(
                    log,
                    config_snapshot.last_applied as int,
                    log.spec_last_index(),
                    x,
                    config_snapshot.data.is_member(x),
                    config_snapshot.data.is_learner(x),
                ).0,
            forall|x: ServerId|
                #[trigger] r.config.value.is_learner(x) == spec_roles_after(
                    log,
                    config_snapshot.last_applied as int,
                    log.spec_last_index(),
                    x,
                    config_snapshot.data.is_member(x),
                    config_snapshot.data.is_learner(x),
                ).1,
            r.config.last_applied == (if config_snapshot.last_applied > log.spec_last_index() {
                config_snapshot.last_applied as int
            } else {
                log.spec_last_index()
            }),
            r.config.committed.last_applied >= config_snapshot.last_applied,
            // a log without configuration entries leaves the snapshot's
            // membership exactly as given
            (forall|k: int|
                log.has_entry(k) ==> !((#[trigger] log.spec_entry_at(k)).data is Config)) ==> {
                &&& r.config.value.members@ == config_snapshot.data.members@
                &&& r.config.value.learners@ == config_snapshot.data.learners@
            },
    {
        let mut meta = meta;
        let last_log_index = log.prev_index + log.entries.len() as u64;
        let last_log_term = match log.term(last_log_index) {
            Some(t) => t,
            None => 0,  // unreachable: the last index always has a term
        };
        proof {
            assert(log.spec_term_at(log.spec_last_index()) == Some(log.spec_last_term()));
        }
        // without a persisted vote for a newer term, a newer term in the log
        // means we cast no meaningful vote in it
        if last_log_term > meta.current_term {
            meta.current_term = last_log_term;
            meta.voted_for = None;
        }
        // snapshots hold only committed data: a newer snapshot means the
        // commit index simply was not persisted
        if config_snapshot.last_applied > meta.commit_index {
            meta.commit_index = config_snapshot.last_applied;
        }
        let ghost snap = config_snapshot;
        let mut config = ConfigurationStateMachine::from_snapshot(config_snapshot);
        // replay whatever suffix of the log the configuration has not seen
        let mut i: u64 = config.last_applied + 1;
        while i <= last_log_index
            invariant
                log.wf(),
                config.inv(),
                last_log_index == log.spec_last_index(),
                last_log_index < u64::MAX,
                log.prev_index < i,
                config.last_applied == i - 1,
                i >= snap.last_applied + 1,
                i <= last_log_index + 1 || i == snap.last_applied + 1,
                config.last_applied >= log.prev_index,
                config.committed.last_applied >= log.prev_index,
                config.committed.last_applied <= meta.commit_index,
                config.committed.last_applied >= snap.last_applied,
                forall|x: ServerId|
                    #[trigger] config.value.is_member(x) == spec_roles_after(
                        log,
                        snap.last_applied as int,
                        i - 1,
                        x,
                        snap.data.is_member(x),
                        snap.data.is_learner(x),
                    ).0,
                forall|x: ServerId|
                    #[trigger] config.value.is_learner(x) == spec_roles_after(
                        log,
                        snap.last_applied as int,
                        i - 1,
                        x,
                        snap.data.is_member(x),
                        snap.data.is_learner(x),
                    ).1,
                (forall|k: int|
                    log.has_entry(k) ==> !((#[trigger] log.spec_entry_at(k)).data is Config))
                    ==> config.value.members@ == snap.data.members@ && config.value.learners@
                    == snap.data.learners@,
                forall|k: int|
                    0 <= k < config.pending@.len() ==> (#[trigger] config.pending@[k]).index
                        <= log.spec_last_index(),
                i <= u64::MAX,
            decreases last_log_index + 1 - i,
        {
            let e = match log.entry(i) {
                Some(e) => e,
                None => {
                    proof {
                        assert(log.has_entry(i as int));
                        assert(false);
                    }
                    return ConsensusModule {
                        id,
                        meta,
                        config,
                        log,
                        state: new_follower(now),
                    };
                },
            };
            let ghost pre_value = config.value;
            config.apply(e, meta.commit_index);
            proof {
                let la = snap.last_applied as int;
                let bm = |x: ServerId| snap.data.is_member(x);
                let bl = |x: ServerId| snap.data.is_learner(x);
                assert(log.spec_entry_at(i as int) == e@);
                assert forall|x: ServerId|
                    #[trigger] config.value.is_member(x) == spec_roles_after(
                        log,
                        la,
                        i as int,
                        x,
                        snap.data.is_member(x),
                        snap.data.is_learner(x),
                    ).0 && config.value.is_learner(x) == spec_roles_after(
                        log,
                        la,
                        i as int,
                        x,
                        snap.data.is_member(x),
                        snap.data.is_learner(x),
                    ).1 by {
                    let prev = spec_roles_after(
                        log,
                        la,
                        i - 1,
                        x,
                        snap.data.is_member(x),
                        snap.data.is_learner(x),
                    );
                    assert(pre_value.is_member(x) == prev.0);
                    assert(pre_value.is_learner(x) == prev.1);
                    match e.data {
                        LogEntryData::Config(c) => {
                            assert(crate::config_state::change_applies(
                                pre_value,
                                config.value,
                                c,
                            ));
                            match c {
                                ConfigChange::AddLearner(sid) => {
                                    assert(pre_value.is_member(sid) == spec_roles_after(
                                        log,
                                        la,
                                        i - 1,
                                        sid,
                                        snap.data.is_member(sid),
                                        snap.data.is_learner(sid),
                                    ).0);
                                },
                                _ => {},
                            }
                        },
                        _ => {},
                    }
                }
            }
            i = i + 1;
        }
        let state = new_follower(now);
        proof {
            if snap.last_applied >= log.spec_last_index() {
                assert(i == snap.last_applied + 1);
                assert(config.last_applied == snap.last_applied);
                assert(forall|x: ServerId|
                    spec_roles_after(
                        log,
                        snap.last_applied as int,
                        log.spec_last_index(),
                        x,
                        #[trigger] snap.data.is_member(x),
                        snap.data.is_learner(x),
                    ) == (snap.data.is_member(x), snap.data.is_learner(x)));
            } else {
                assert(i == last_log_index + 1);
            }
        }
        ConsensusModule { id, meta, config, log, state }
    }
}

/// The shape every replication batch must have: the first entry follows the
/// stated previous position with a term no older than it, indexes step by
/// one, terms never decrease, and no entry claims a term later than the
/// request's own.
pub open spec fn batch_wf(req: AppendEntriesRequest) -> bool {
    req.entries@.len() >= 1 ==> {
        &&& req.entries@[0].term >= req.prev_log_term
        &&& forall|j: int|
            0 <= j < req.entries@.len() ==> (#[trigger] req.entries@[j]).index
                == req.prev_log_index + 1 + j
        &&& forall|i: int, j: int|
            0 <= i <= j < req.entries@.len() ==> (#[trigger] req.entries@[i]).term <= (
            #[trigger] req.entries@[j]).term
        &&& req.entries@.last().term <= req.term
    }
}

/// In a well-formed batch, entry `j` sits at index `prev_log_index + 1 + j`
/// and its term lies between the previous term and the request's term.
proof fn lemma_batch_entry_props(req: AppendEntriesRequest, j: int)
    requires
        batch_wf(req),
        0 <= j < req.entries@.len(),
    ensures
        req.entries@[j].index == req.prev_log_index + 1 + j,
        req.prev_log_term <= req.entries@[j].term <= req.term,
{
    assert(req.entries@[0].term <= req.entries@[j].term);
    assert(req.entries@[j].term <= req.entries@[req.entries@.len() - 1].term);
}

/// Links a chain of adjacent index and term facts, as the sanity loop
/// establishes them, to the absolute form `batch_wf` states.
proof fn lemma_batch_chain(req: AppendEntriesRequest, j: int)
    requires
        req.entries@.len() >= 1,
        req.entries@[0].index == req.prev_log_index + 1,
        forall|k: int|
            0 <= k < req.entries@.len() - 1 ==> (#[trigger] req.entries@[k]).term
                <= req.entries@[k + 1].term && req.entries@[k + 1].index == req.entries@[k].index
                + 1,
        0 <= j < req.entries@.len(),
    ensures
        req.entries@[j].index == req.prev_log_index + 1 + j,
        forall|i: int| 0 <= i <= j ==> (#[trigger] req.entries@[i]).term <= req.entries@[j].term,
    decreases j,
{
    if j > 0 {
        lemma_batch_chain(req, j - 1);
    }
}

/// The (member, learner) roles of `x` after replaying the log's `Config`
/// entries over `(from, to]` onto base roles, per the configuration state
/// machine's absorption rules (adding a current member as a learner changes
/// nothing).
pub open spec fn spec_roles_after(
    log: LogStore,
    from: int,
    to: int,
    x: ServerId,
    base_member: bool,
    base_learner: bool,
) -> (bool, bool)
    decreases to - from,
{
    if to <= from {
        (base_member, base_learner)
    } else {
        let prev = spec_roles_after(log, from, to - 1, x, base_member, base_learner);
        let m = prev.0;
        let l = prev.1;
        if log.has_entry(to) {
            match log.spec_entry_at(to).data {
                EntryDataModel::Config(c) => match c {
                    ConfigChange::AddMember(s) => (m || x == s, l && x != s),
                    ConfigChange::AddLearner(s) => (m, l || (x == s && !m)),
                    ConfigChange::RemoveServer(s) => (m && x != s, l && x != s),
                },
                _ => (m, l),
            }
        } else {
            (m, l)
        }
    }
}

/// How many entries at the front of the batch are already present in the
/// log, matched by index and term.
pub open spec fn spec_first_new(log: LogStore, entries: Seq<LogEntry>) -> int
    decreases entries.len(),
{
    if entries.len() == 0 {
        0
    } else if log.spec_term_at(entries[0].index as int) == Some(entries[0].term) {
        1 + spec_first_new(log, entries.drop_first())
    } else {
        0
    }
}

/// The first-new count is exactly the length of the leading matched prefix.
proof fn lemma_first_new_char(log: LogStore, entries: Seq<LogEntry>, n: int)
    requires
        0 <= n <= entries.len(),
        forall|k: int|
            0 <= k < n ==> log.spec_term_at((#[trigger] entries[k]).index as int) == Some(
                entries[k].term,
            ),
        n < entries.len() ==> log.spec_term_at(entries[n].index as int) != Some(entries[n].term),
    ensures
        spec_first_new(log, entries) == n,
    decreases entries.len(),
{
    if entries.len() == 0 {
    } else if log.spec_term_at(entries[0].index as int) == Some(entries[0].term) {
        assert(n >= 1);
        let t = entries.drop_first();
        assert(forall|k: int| 0 <= k < t.len() ==> #[trigger] t[k] == entries[k + 1]);
        lemma_first_new_char(log, t, n - 1);
    } else {
        assert(n == 0);
    }
}

impl ConsensusModule {
    /// Whether the batch conflicts with the log: some entry after the
    /// matched prefix occupies an index our log fills with another term.
    pub open spec fn spec_has_conflict(log: LogStore, req: AppendEntriesRequest) -> bool {
        let n = spec_first_new(log, req.entries@);
        n < req.entries@.len() && log.spec_term_at(req.entries@[n].index as int) is Some
    }

    /// Whether the batch's first genuinely new entry would not land
    /// immediately after the log: only possible when the request reaches
    /// into a compacted region through a previous position the log still
    /// answers for.
    pub open spec fn spec_append_gap(lg: LogStore, req: AppendEntriesRequest) -> bool {
        let n = spec_first_new(lg, req.entries@);
        &&& n < req.entries@.len()
        &&& lg.spec_term_at(req.entries@[n].index as int) is None
        &&& (req.entries@[n].index != lg.spec_last_index() + 1 || req.entries@[n].term
            < lg.spec_last_term())
    }

    /// The last log position covered by the request: the last entry's
    /// position, or the stated previous position when every entry was
    /// already present (or the batch is empty).
    pub open spec fn spec_last_new(log: LogStore, req: AppendEntriesRequest) -> LogPosition {
        if spec_first_new(log, req.entries@) < req.entries@.len() {
            LogPosition {
                term: req.entries@.last().term,
                index: req.entries@.last().index,
            }
        } else {
            LogPosition { term: req.prev_log_term, index: req.prev_log_index }
        }
    }

    /// Handles a replication batch from the claimed leader: either accept
    /// and append, or reject with hints.  A stale term is refused outright;
    /// a batch whose previous position does not match our log is refused
    /// with a back-off hint; entries already present are skipped; a
    /// conflicting suffix is truncated unless that would touch committed
    /// entries, which is refused as a protocol violation; the rest is
    /// appended and the commit index follows the leader's within the range
    /// this request validated.
    pub fn append_entries(&mut self, req: AppendEntriesRequest, tick: &mut Tick) -> (r: Result<
        MatchConstraint<AppendEntriesResponse>,
        RaftError,
    >)
        requires
            old(self).inv(),
            old(self).not_solo_corrupt(),
            old(self).meta.current_term < u64::MAX,
            req.term > old(self).meta.current_term ==> req.term < u64::MAX,
            old(self).log.spec_last_index() + 1 < u64::MAX,
            req.prev_log_index < u64::MAX,
        ensures
            final(self).inv(),
            Self::step_safe(&*old(self), &*final(self)),
            tick_extends(*old(tick), *final(tick)),
            final(self).meta.current_term >= req.term,
            // errors leave the log, the commit index, the configuration and
            // the outbox untouched; only the term bookkeeping may have moved
            r is Err ==> {
                &&& final(self).meta.commit_index == old(self).meta.commit_index
                &&& final(self).log@ == old(self).log@
                &&& final(self).config == old(self).config
                &&& final(tick).messages@ == old(tick).messages@
                &&& final(self).meta.voted_for == (if req.term > old(self).meta.current_term {
                    None
                } else {
                    old(self).meta.voted_for
                })
            },
            // a stale term changes nothing and reports our newer term
            req.term < old(self).meta.current_term ==> {
                &&& r matches Ok(mc)
                &&& mc.pos is None
                &&& mc.inner == (AppendEntriesResponse {
                    term: old(self).meta.current_term,
                    success: false,
                    last_log_index: None,
                })
                &&& *final(self) == *old(self)
                &&& *final(tick) == *old(tick)
            },
            // no conflict in the batch: the log only ever grows
            !Self::spec_has_conflict(old(self).log, req) ==> Self::log_is_extension(
                &*old(self),
                &*final(self),
            ),
            // a leader stays leader and keeps its log intact (it only ever
            // talks to itself in its own term)
            old(self).state is Leader && final(self).state is Leader ==> Self::log_is_extension(
                &*old(self),
                &*final(self),
            ),
            // the exact outcomes, barring the self-election of a lone
            // member observing a newer term
            !(old(self).solo_member() && (req.term > old(self).meta.current_term || (req.term
                == old(self).meta.current_term && old(self).state is Candidate))) && req.term
                >= old(self).meta.current_term ==> {
                let still_leader = old(self).state is Leader && req.term == old(self).meta.current_term;
                &&& final(self).meta.current_term == req.term
                &&& (still_leader && req.leader_id != old(self).id ==> r == Err::<
                    MatchConstraint<AppendEntriesResponse>,
                    RaftError,
                >(RaftError::ConflictingLeader))
                &&& (!(still_leader && req.leader_id != old(self).id) ==> Self::batch_outcome(
                    &*old(self),
                    &*final(self),
                    req,
                    still_leader,
                    r,
                ))
                // accepting the term makes us its follower: the heartbeat
                // timer restarts and the sender becomes the leader hint (a
                // candidate of this term accepts the new leader)
                &&& (!still_leader ==> {
                    &&& final(self).state matches ServerState::Follower(f2)
                    &&& f2.last_heartbeat == old(tick).time
                    &&& f2.last_leader_id == Some(req.leader_id)
                })
            },
    {
        self.observe_term(req.term, tick);
        // a candidate that sees a leader of its own term accepts it
        if req.term == self.meta.current_term {
            let is_candidate = match &self.state {
                ServerState::Candidate(_) => true,
                _ => false,
            };
            if is_candidate {
                self.become_follower(tick);
            }
        }
        let current_term = self.meta.current_term;
        if req.term < current_term {
            // not the current leader; the response carries our newer term so
            // that the sender demotes itself
            return Ok(
                MatchConstraint::unconstrained(
                    AppendEntriesResponse { term: current_term, success: false,
                        last_log_index: None },
                ),
            );
        }
        // role bookkeeping: a follower notes the heartbeat and the leader's
        // id; a leader only ever accepts its own requests; a candidate in
        // this term was demoted above
        let follower_update: Option<ServerFollowerState> = match &self.state {
            ServerState::Follower(f) => Some(
                ServerFollowerState {
                    last_heartbeat: tick.time,
                    last_leader_id: Some(req.leader_id),
                    ..*f
                },
            ),
            ServerState::Leader(_) => {
                if req.leader_id != self.id {
                    // two leaders in one term would be a safety violation
                    return Err(RaftError::ConflictingLeader);
                }
                None
            },
            ServerState::Candidate(_) => {
                return Err(RaftError::UnexpectedCandidate);
            },
        };
        match follower_update {
            Some(f) => {
                self.state = ServerState::Follower(f);
            },
            None => {},
        }
        self.append_entries_body(req, tick)
    }

    /// What `append_entries` does with a batch once the term and role
    /// bookkeeping is settled, phrased against the state `pre` at that
    /// point: the sanity, horizon and consistency checks, the conflict
    /// resolution, the append, and the commit advancement.
    pub open spec fn batch_outcome(
        pre: &Self,
        post: &Self,
        req: AppendEntriesRequest,
        still_leader: bool,
        r: Result<MatchConstraint<AppendEntriesResponse>, RaftError>,
    ) -> bool {
        let lg = pre.log;
        let n = spec_first_new(lg, req.entries@);
        let last_new = Self::spec_last_new(lg, req);
        &&& (!batch_wf(req) ==> {
            &&& r matches Err(e)
            &&& (e == RaftError::EntryDoesNotFollow || e == RaftError::EntriesOutOfOrder || e
                == RaftError::EntryFromFutureTerm)
        })
        &&& (batch_wf(req) && lg@.len() > 0 && req.prev_log_index < lg.prev_index ==> r == Err::<
            MatchConstraint<AppendEntriesResponse>,
            RaftError,
        >(RaftError::PrevBeforeLogStart))
        &&& (batch_wf(req) && !(lg@.len() > 0 && req.prev_log_index < lg.prev_index) ==> (
        match lg.spec_term_at(req.prev_log_index as int) {
            Some(t) => {
                &&& (t != req.prev_log_term ==> {
                    &&& r matches Ok(mc)
                    &&& !mc.inner.success
                    &&& mc.inner.term == req.term
                    &&& mc.inner.last_log_index == Some(pre.meta.commit_index)
                    &&& post.log@ == lg@
                })
                &&& (t == req.prev_log_term ==> {
                    &&& (Self::spec_has_conflict(lg, req) && req.entries@[n].index
                        <= pre.meta.commit_index ==> r == Err::<
                        MatchConstraint<AppendEntriesResponse>,
                        RaftError,
                    >(RaftError::RefusedCommittedTruncate) && post.log@ == lg@)
                    &&& (Self::spec_has_conflict(lg, req) && req.entries@[n].index
                        > pre.meta.commit_index && still_leader ==> r == Err::<
                        MatchConstraint<AppendEntriesResponse>,
                        RaftError,
                    >(RaftError::ConflictingLeader))
                    &&& (Self::spec_append_gap(lg, req) ==> r == Err::<
                        MatchConstraint<AppendEntriesResponse>,
                        RaftError,
                    >(RaftError::AppendGap) && post.log@ == lg@)
                    &&& (!(Self::spec_has_conflict(lg, req) && (req.entries@[n].index
                        <= pre.meta.commit_index || still_leader)) && !Self::spec_append_gap(
                        lg,
                        req,
                    ) ==> {
                        &&& r matches Ok(mc)
                        &&& mc.inner.success
                        &&& mc.inner.term == req.term
                        &&& mc.pos == Some(last_new)
                        &&& forall|j: int|
                            0 <= j < req.entries@.len() ==> post.log.spec_term_at(
                                (#[trigger] req.entries@[j]).index as int,
                            ) == Some(req.entries@[j].term)
                        &&& forall|j: int|
                            n <= j < req.entries@.len() ==> post.log.spec_entry_at(
                                (#[trigger] req.entries@[j]).index as int,
                            ) == req.entries@[j]@
                        &&& post.log.spec_last_index() == (if Self::spec_has_conflict(lg, req) {
                            last_new.index as int
                        } else if last_new.index > lg.spec_last_index() {
                            last_new.index as int
                        } else {
                            lg.spec_last_index()
                        })
                        &&& mc.inner.last_log_index == (if post.log.spec_last_index()
                            != last_new.index {
                            Some(post.log.spec_last_index() as u64)
                        } else {
                            None
                        })
                        &&& post.meta.commit_index == (if req.leader_commit
                            > pre.meta.commit_index && last_new.index > pre.meta.commit_index {
                            (if req.leader_commit <= last_new.index {
                                req.leader_commit as int
                            } else {
                                last_new.index as int
                            })
                        } else {
                            pre.meta.commit_index as int
                        })
                    })
                })
            },
            None => {
                &&& r matches Ok(mc)
                &&& !mc.inner.success
                &&& mc.inner.term == req.term
                &&& mc.inner.last_log_index == Some(lg.spec_last_index() as u64)
                &&& post.log@ == lg@
            },
        }))
    }

    /// The batch-handling stage of `append_entries`, entered once the term
    /// is ours and the role bookkeeping is done.
    #[verifier::rlimit(100)]
    #[verifier::spinoff_prover]
    fn append_entries_body(&mut self, req: AppendEntriesRequest, tick: &mut Tick) -> (r: Result<
        MatchConstraint<AppendEntriesResponse>,
        RaftError,
    >)
        requires
            old(self).inv(),
            old(self).state is Follower || old(self).state is Leader,
            req.term == old(self).meta.current_term,
            old(self).log.spec_last_index() + 1 < u64::MAX,
            req.prev_log_index < u64::MAX,
        ensures
            final(self).inv(),
            Self::step_safe(&*old(self), &*final(self)),
            tick_extends(*old(tick), *final(tick)),
            final(self).state == old(self).state,
            final(self).meta.current_term == old(self).meta.current_term,
            final(self).meta.voted_for == old(self).meta.voted_for,
            r is Err ==> *final(self) == *old(self) && *final(tick) == *old(tick),
            !Self::spec_has_conflict(old(self).log, req) ==> Self::log_is_extension(
                &*old(self),
                &*final(self),
            ),
            old(self).state is Leader ==> Self::log_is_extension(&*old(self), &*final(self)),
            Self::batch_outcome(
                &*old(self),
                &*final(self),
                req,
                old(self).state is Leader,
                r,
            ),
    {
        let current_term = self.meta.current_term;
        // batch sanity: reject malformed batches before touching anything
        match check_batch(&req) {
            Some(e) => {
                return Err(e);
            },
            None => {},
        }
        // a request from before our compaction horizon cannot be checked
        let fi = match self.log.first_index() {
            Some(f) => f,
            None => 1,
        };
        if req.prev_log_index < fi - 1 {
            return Err(RaftError::PrevBeforeLogStart);
        }
        // consistency check: our log must match the stated previous position
        let last_log_index_pre = self.prev_plus_len();
        match self.log.term(req.prev_log_index) {
            Some(t) => {
                if t != req.prev_log_term {
                    // ask the leader to back off to our committed point for
                    // faster convergence than one-step decrements
                    return Ok(
                        MatchConstraint::unconstrained(
                            AppendEntriesResponse {
                                term: current_term,
                                success: false,
                                last_log_index: Some(self.meta.commit_index),
                            },
                        ),
                    );
                }
            },
            None => {
                // the request reaches beyond our log; report how far we got
                return Ok(
                    MatchConstraint::unconstrained(
                        AppendEntriesResponse {
                            term: current_term,
                            success: false,
                            last_log_index: Some(last_log_index_pre),
                        },
                    ),
                );
            },
        }
        let ghost lg = self.log;
        // find the first entry not already present in the log
        let (first_new, conflict) = scan_first_new(&self.log, &req.entries);
        // on a conflict, the suffix from the conflicting index must go;
        // committed entries are never truncated, and a leader's own log is
        // append-only (a batch conflicting with it cannot be its own)
        if conflict {
            let e_index = req.entries[first_new].index;
            if self.meta.commit_index >= e_index {
                return Err(RaftError::RefusedCommittedTruncate);
            }
            let still_leader = match &self.state {
                ServerState::Leader(_) => true,
                _ => false,
            };
            if still_leader {
                return Err(RaftError::ConflictingLeader);
            }
            proof {
                lemma_batch_entry_props(req, first_new as int);
                assert(e_index > self.config.committed.last_applied);
            }
            self.config.revert(e_index);
            self.log.truncate_suffix(e_index);
            proof {
                // the truncated log ends exactly where the conflicting
                // entry goes, with a term the batch does not undercut
                assert(lg.spec_term_at(e_index as int) is Some);
                assert(lg.has_entry(e_index as int) || e_index == lg.prev_index);
                assert(self.log.spec_last_index() == e_index - 1);
                assert(self.log.spec_term_at(e_index - 1) == lg.spec_term_at(e_index - 1));
                assert(self.log.spec_term_at(self.log.spec_last_index()) == Some(
                    self.log.spec_last_term(),
                ));
                if first_new > 0 {
                    lemma_batch_entry_props(req, first_new as int - 1);
                    assert(lg.spec_term_at(req.entries@[first_new - 1].index as int) == Some(
                        req.entries@[first_new - 1].term,
                    ));
                    assert(req.entries@[first_new - 1].term <= req.entries@[first_new as int].term);
                }
            }
        }
        // the first new entry must follow our log exactly
        if first_new < req.entries.len() {
            let last_log_index = self.prev_plus_len();
            let last_log_term = match self.log.term(last_log_index) {
                Some(t) => t,
                None => 0,  // unreachable: the last index always has a term
            };
            proof {
                assert(self.log.spec_term_at(self.log.spec_last_index()) == Some(
                    self.log.spec_last_term(),
                ));
                lemma_batch_entry_props(req, first_new as int);
                if first_new > 0 {
                    lemma_batch_entry_props(req, first_new as int - 1);
                }
            }
            let next = &req.entries[first_new];
            if next.index != last_log_index + 1 || next.term < last_log_term {
                proof {
                    // a gap can only come from a batch reaching into the
                    // compacted region; a truncated conflict always splices
                    assert(!conflict);
                }
                return Err(RaftError::AppendGap);
            }
        }
        // append the remaining new entries, absorbing configuration changes
        let mut last_new = req.prev_log_index;
        let mut last_new_term = req.prev_log_term;
        if first_new < req.entries.len() {
            last_new = req.entries[req.entries.len() - 1].index;
            last_new_term = req.entries[req.entries.len() - 1].term;
            self.append_new_entries(&req, first_new, tick);
        }
        // advance the commit index, bounded by what this request validated
        // (never by our possibly stale local last index)
        if req.leader_commit > self.meta.commit_index {
            let next_commit_index = if req.leader_commit <= last_new {
                req.leader_commit
            } else {
                last_new
            };
            if next_commit_index > self.meta.commit_index {
                self.update_commited(next_commit_index, tick);
            }
        }
        // on success the response reports our last index only when it runs
        // past the request, so the leader can help resolve the extra entries
        let last_log_index = self.prev_plus_len();
        Ok(
            MatchConstraint::new(
                AppendEntriesResponse {
                    term: current_term,
                    success: true,
                    last_log_index: (if last_log_index != last_new {
                        Some(last_log_index)
                    } else {
                        None
                    }),
                },
                LogPosition { term: last_new_term, index: last_new },
            ),
        )
    }

    /// Appends the batch's entries from position `first_new` on, absorbing
    /// configuration changes as they land.
    #[verifier::rlimit(100)]
    #[verifier::spinoff_prover]
    fn append_new_entries(&mut self, req: &AppendEntriesRequest, first_new: usize, tick: &mut Tick)
        requires
            old(self).inv(),
            batch_wf(*req),
            req.term == old(self).meta.current_term,
            first_new < req.entries@.len(),
            old(self).log.spec_last_index() == req.prev_log_index + first_new,
            old(self).log.spec_last_term() <= req.entries@[first_new as int].term,
        ensures
            final(self).inv(),
            final(self).state == old(self).state,
            final(self).meta == old(self).meta,
            final(self).id == old(self).id,
            final(self).log.prev_index == old(self).log.prev_index,
            final(self).log.prev_term == old(self).log.prev_term,
            final(self).log.spec_last_index() == req.entries@.last().index,
            final(self).log.spec_last_term() == req.entries@.last().term,
            forall|k: int|
                first_new <= k < req.entries@.len() ==> final(self).log.spec_term_at(
                    (#[trigger] req.entries@[k]).index as int,
                ) == Some(req.entries@[k].term) && final(self).log.spec_entry_at(
                    req.entries@[k].index as int,
                ) == req.entries@[k]@,
            forall|i2: int|
                old(self).log.has_entry(i2) ==> final(self).log.has_entry(i2) && final(self).log.spec_entry_at(i2) == old(self).log.spec_entry_at(i2) && final(self).log.spec_term_at(i2)
                    == old(self).log.spec_term_at(i2),
            *final(tick) == (Tick { new_entries: true, ..*old(tick) }),
    {
        proof {
            assert forall|j: int|
                first_new <= j < req.entries@.len() implies (#[trigger] req.entries@[j]).index
                == old(self).log.spec_last_index() + 1 + (j - first_new) by {
                lemma_batch_entry_props(*req, j);
            }
            assert forall|j: int|
                first_new <= j < req.entries@.len() implies (#[trigger] req.entries@[j]).term
                <= req.term by {
                lemma_batch_entry_props(*req, j);
            }
        }
        tick.new_entries = true;
        self.log.append_suffix(&req.entries, first_new);
        let ghost logsnap = self.log;
        proof {
            lemma_batch_entry_props(*req, req.entries@.len() - 1);
            assert forall|j2: int|
                first_new <= j2 < req.entries@.len() implies (#[trigger] req.entries@[j2]).index
                <= self.log.spec_last_index() by {
                lemma_batch_entry_props(*req, j2);
            }
        }
        // absorb any configuration changes the new entries carry
        let mut j = first_new;
        while j < req.entries.len()
            invariant
                self.log == logsnap,
                self.state == old(self).state,
                self.meta == old(self).meta,
                self.id == old(self).id,
                first_new <= j <= req.entries@.len(),
                self.log.wf(),
                self.config.inv(),
                self.config.committed.last_applied >= self.log.prev_index,
                self.config.committed.last_applied <= self.meta.commit_index,
                forall|k: int|
                    0 <= k < self.config.pending@.len() ==> (
                    #[trigger] self.config.pending@[k]).index <= self.log.spec_last_index(),
                forall|j2: int|
                    first_new <= j2 < req.entries@.len() ==> (#[trigger] req.entries@[j2]).index
                        <= self.log.spec_last_index(),
            decreases req.entries@.len() - j,
        {
            self.config.apply(&req.entries[j], self.meta.commit_index);
            j = j + 1;
        }
        proof {
            lemma_batch_entry_props(*req, req.entries@.len() - 1);
            assert(self.log.spec_last_term() <= self.meta.current_term);
            match &self.state {
                ServerState::Leader(l) => {
                    assert(forall|k: int|
                        0 <= k < l.servers@.len() ==> (#[trigger] l.servers@[k]).1.next_index
                            <= self.log.spec_last_index() + 1);
                    assert(self.role_inv());
                },
                _ => {},
            }
        }
    }
    }

/// Checks the shape of a replication batch: nothing when it is well formed,
/// else the protocol error describing the first violation found.
fn check_batch(req: &AppendEntriesRequest) -> (r: Option<RaftError>)
    requires
        req.prev_log_index < u64::MAX,
    ensures
        r is None <==> batch_wf(*req),
        r matches Some(e) ==> (e == RaftError::EntryDoesNotFollow || e
            == RaftError::EntriesOutOfOrder || e == RaftError::EntryFromFutureTerm),
{
    if req.entries.len() >= 1 {
        let first = &req.entries[0];
        if first.term < req.prev_log_term || first.index != req.prev_log_index + 1 {
            return Some(RaftError::EntryDoesNotFollow);
        }
        let mut i: usize = 0;
        while i < req.entries.len() - 1
            invariant
                req.entries@.len() >= 1,
                i < req.entries@.len(),
                forall|k: int|
                    0 <= k < i ==> (#[trigger] req.entries@[k]).term <= req.entries@[k + 1].term
                        && req.entries@[k + 1].index == req.entries@[k].index + 1,
            decreases req.entries@.len() - i,
        {
            let cur = &req.entries[i];
            let next = &req.entries[i + 1];
            if cur.term > next.term || cur.index >= u64::MAX || next.index != cur.index + 1 {
                return Some(RaftError::EntriesOutOfOrder);
            }
            i = i + 1;
        }
        if req.entries[req.entries.len() - 1].term > req.term {
            // a leader never distributes entries from beyond its own term
            return Some(RaftError::EntryFromFutureTerm);
        }
        proof {
            assert forall|j: int|
                0 <= j < req.entries@.len() implies (#[trigger] req.entries@[j]).index
                == req.prev_log_index + 1 + j by {
                lemma_batch_chain(*req, j);
            }
            assert forall|a: int, b: int|
                0 <= a <= b < req.entries@.len() implies (#[trigger] req.entries@[a]).term <= (
                #[trigger] req.entries@[b]).term by {
                lemma_batch_chain(*req, b);
            }
        }
    }
    None
}

/// Walks the batch against the log: how many leading entries are already
/// present (matched by index and term), and whether the first non-matched
/// entry conflicts with an existing one.
fn scan_first_new(log: &LogStore, entries: &Vec<LogEntry>) -> (r: (usize, bool))
    requires
        log.wf(),
    ensures
        r.0 == spec_first_new(*log, entries@),
        r.0 <= entries@.len(),
        r.1 == (r.0 < entries@.len() && log.spec_term_at(
            entries@[r.0 as int].index as int,
        ) is Some),
        r.1 ==> log.spec_term_at(entries@[r.0 as int].index as int) != Some(
            entries@[r.0 as int].term,
        ),
        !r.1 && r.0 < entries@.len() ==> log.spec_term_at(
            entries@[r.0 as int].index as int,
        ) is None,
        forall|k: int|
            0 <= k < r.0 ==> log.spec_term_at((#[trigger] entries@[k]).index as int) == Some(
                entries@[k].term,
            ),
{
    let mut first_new: usize = 0;
    let mut scan_done = false;
    let mut conflict = false;
    while first_new < entries.len() && !scan_done
        invariant
            log.wf(),
            first_new <= entries@.len(),
            forall|k: int|
                0 <= k < first_new ==> log.spec_term_at((#[trigger] entries@[k]).index as int)
                    == Some(entries@[k].term),
            conflict ==> scan_done,
            scan_done ==> first_new < entries@.len(),
            scan_done && conflict ==> log.spec_term_at(
                entries@[first_new as int].index as int,
            ) is Some && log.spec_term_at(entries@[first_new as int].index as int) != Some(
                entries@[first_new as int].term,
            ),
            scan_done && !conflict ==> log.spec_term_at(
                entries@[first_new as int].index as int,
            ) is None,
        decreases entries@.len() - first_new, (if scan_done {
            0int
        } else {
            1int
        }),
    {
        let e = &entries[first_new];
        match log.term(e.index) {
            Some(t) => {
                if t == e.term {
                    first_new = first_new + 1;
                } else {
                    conflict = true;
                    scan_done = true;
                }
            },
            None => {
                scan_done = true;
            },
        }
    }
    proof {
        lemma_first_new_char(*log, entries@, first_new as int);
    }
    (first_new, conflict)
}

/// Whether the progress list already holds an entry for `id`.
fn progress_ids_contain(servers: &Vec<(ServerId, ServerProgress)>, id: ServerId) -> (r: bool)
    ensures
        r == exists|k: int| 0 <= k < servers@.len() && (#[trigger] servers@[k]).0 == id,
{
    let mut i: usize = 0;
    while i < servers.len()
        invariant
            i <= servers@.len(),
            forall|k: int| 0 <= k < i ==> (#[trigger] servers@[k]).0 != id,
        decreases servers@.len() - i,
    {
        if servers[i].0 == id {
            return true;
        }
        i = i + 1;
    }
    false
}

/// A fresh follower state at the given time, with a randomized election
/// timeout in the configured span.
fn new_follower(now: u64) -> (r: ServerState)
    ensures
        r matches ServerState::Follower(f) && f.last_heartbeat == now && f.last_leader_id is None
            && ELECTION_TIMEOUT_MIN <= f.election_timeout < ELECTION_TIMEOUT_MAX,
{
    ServerState::Follower(
        ServerFollowerState {
            election_timeout: new_election_timeout(),
            last_leader_id: None,
            last_heartbeat: now,
        },
    )
}

} // verus!
