//! Wire messages and persistent-state records shared by the consensus module
//! and its host.

use vstd::prelude::*;

verus! {

/// Uniquely identifies a server in the cluster.  Ids are assigned outside the
/// core; the value 0 is reserved and never names a real server.
pub type ServerId = u64;

/// Monotonic logical clock partition; increases across elections.
pub type Term = u64;

/// Position in the replicated log.  Real entries start at 1; 0 denotes
/// "before the log".
pub type LogIndex = u64;

/// A position in the log identified by index and the term of the entry there.
#[derive(Clone, Copy, Debug, PartialEq, Eq, Structural)]
pub struct LogPosition {
    pub term: Term,
    pub index: LogIndex,
}

/// Persistent information describing the state of the current server.
#[derive(Clone, Copy, Debug, PartialEq, Eq)]
pub struct Metadata {
    /// Latest term seen by this server (starts at 0).
    pub current_term: Term,

    /// The id of the server that we have voted for in the current term.
    pub voted_for: Option<ServerId>,

    /// Index of the last log entry safely replicated on a majority of servers
    /// and at some point committed in the same term.
    pub commit_index: LogIndex,
}

impl Default for Metadata {
    /// A fresh server: term 0, no vote cast, nothing committed.
    fn default() -> (r: Self)
        ensures
            r.current_term == 0,
            r.voted_for is None,
            r.commit_index == 0,
    {
        Metadata { current_term: 0, voted_for: None, commit_index: 0 }
    }
}

/// A single-server change to the cluster configuration.
#[derive(Clone, Copy, Debug, PartialEq, Eq, Structural)]
pub enum ConfigChange {
    /// Adds a server as a full voting member.
    AddMember(ServerId),

    /// Adds a server as a learner: entries are replicated to it but it is not
    /// considered for the purposes of elections and counting votes.
    AddLearner(ServerId),

    /// Removes a server completely from either the learners or members pools.
    RemoveServer(ServerId),
}

/// The sets of voting members and non-voting learners.  The two sets are
/// disjoint and free of duplicates (see [`Configuration::wf`]).
#[derive(Debug)]
pub struct Configuration {
    /// All servers in the cluster which must be considered for votes.
    pub members: Vec<ServerId>,

    /// All servers which do not participate in votes but should still be sent
    /// new entries.
    pub learners: Vec<ServerId>,
}

impl Configuration {
    /// True iff `id` is a voting member.
    pub open spec fn is_member(&self, id: ServerId) -> bool {
        self.members@.contains(id)
    }

    /// True iff `id` is a learner.
    pub open spec fn is_learner(&self, id: ServerId) -> bool {
        self.learners@.contains(id)
    }

    /// Well-formedness: no duplicates within either list, and no server is
    /// both a member and a learner.
    pub open spec fn wf(&self) -> bool {
        &&& forall|i: int, j: int|
            0 <= i < j < self.members@.len() ==> self.members@[i] != self.members@[j]
        &&& forall|i: int, j: int|
            0 <= i < j < self.learners@.len() ==> self.learners@[i] != self.learners@[j]
        &&& forall|id: ServerId| !(#[trigger] self.is_member(id) && self.is_learner(id))
    }

    /// Whether `id` is a voting member.
    pub fn contains_member(&self, id: ServerId) -> (r: bool)
        ensures
            r == self.is_member(id),
    {
        crate::util::ids_contain(&self.members, id)
    }

    /// Whether `id` is a learner.
    pub fn contains_learner(&self, id: ServerId) -> (r: bool)
        ensures
            r == self.is_learner(id),
    {
        crate::util::ids_contain(&self.learners, id)
    }

    /// Applies one membership change.  Adding a current member as a learner
    /// is not a meaningful change and is excluded by the precondition (a
    /// member must be removed first).
    pub fn apply(&mut self, change: &ConfigChange)
        requires
            old(self).wf(),
            change matches ConfigChange::AddLearner(s) ==> !old(self).is_member(*s),
        ensures
            final(self).wf(),
            *change matches ConfigChange::AddMember(s) ==> {
                &&& forall|x: ServerId|
                    #[trigger] final(self).is_member(x) <==> (old(self).is_member(x) || x == s)
                &&& forall|x: ServerId|
                    #[trigger] final(self).is_learner(x) <==> (old(self).is_learner(x) && x != s)
            },
            *change matches ConfigChange::AddLearner(s) ==> {
                &&& forall|x: ServerId|
                    #[trigger] final(self).is_member(x) <==> old(self).is_member(x)
                &&& forall|x: ServerId|
                    #[trigger] final(self).is_learner(x) <==> (old(self).is_learner(x) || x == s)
            },
            *change matches ConfigChange::RemoveServer(s) ==> {
                &&& forall|x: ServerId|
                    #[trigger] final(self).is_member(x) <==> (old(self).is_member(x) && x != s)
                &&& forall|x: ServerId|
                    #[trigger] final(self).is_learner(x) <==> (old(self).is_learner(x) && x != s)
            },
    {
        match change {
            ConfigChange::AddLearner(s) => {
                crate::util::ids_insert(&mut self.learners, *s);
                proof {
                    assert forall|id: ServerId|
                        !(#[trigger] final(self).is_member(id) && final(self).is_learner(
                            id,
                        )) by {
                        assert(final(self).is_learner(id) ==> (old(self).is_learner(id) || id
                            == *s));
                        assert(!(old(self).is_member(id) && old(self).is_learner(id)));
                    }
                }
            },
            ConfigChange::AddMember(s) => {
                crate::util::ids_remove(&mut self.learners, *s);
                crate::util::ids_insert(&mut self.members, *s);
                proof {
                    assert forall|id: ServerId|
                        !(#[trigger] final(self).is_member(id) && final(self).is_learner(
                            id,
                        )) by {
                        assert(!(old(self).is_member(id) && old(self).is_learner(id)));
                    }
                }
            },
            ConfigChange::RemoveServer(s) => {
                crate::util::ids_remove(&mut self.learners, *s);
                crate::util::ids_remove(&mut self.members, *s);
                proof {
                    assert forall|id: ServerId|
                        !(#[trigger] final(self).is_member(id) && final(self).is_learner(
                            id,
                        )) by {
                        assert(!(old(self).is_member(id) && old(self).is_learner(id)));
                    }
                }
            },
        }
    }

    /// All servers that receive replication: the voting members followed by
    /// the learners.
    pub fn iter(&self) -> (r: Vec<ServerId>)
        ensures
            r@ == self.members@ + self.learners@,
    {
        let mut r = crate::util::clone_ids(&self.members);
        let mut i: usize = 0;
        while i < self.learners.len()
            invariant
                i <= self.learners@.len(),
                r@ == self.members@ + self.learners@.take(i as int),
            decreases self.learners@.len() - i,
        {
            r.push(self.learners[i]);
            proof {
                assert(r@ =~= self.members@ + self.learners@.take(i + 1 as int));
            }
            i = i + 1;
        }
        proof {
            assert(self.members@ + self.learners@.take(self.learners@.len() as int) =~= self
                .members@ + self.learners@);
        }
        r
    }
}

/// A configuration with the same member and learner lists as a well-formed
/// one is well formed itself.
pub proof fn lemma_wf_from_views(a: &Configuration, b: &Configuration)
    requires
        a.wf(),
        b.members@ == a.members@,
        b.learners@ == a.learners@,
    ensures
        b.wf(),
{
    assert forall|id: ServerId| !(#[trigger] b.is_member(id) && b.is_learner(id)) by {
        if b.is_member(id) {
            assert(a.is_member(id));
            assert(!a.is_learner(id));
        }
    }
}

/// Copies a configuration; the copy has the same members and learners.
pub fn clone_config(c: &Configuration) -> (r: Configuration)
    ensures
        r.members@ == c.members@,
        r.learners@ == c.learners@,
{
    Configuration {
        members: crate::util::clone_ids(&c.members),
        learners: crate::util::clone_ids(&c.learners),
    }
}

impl Default for Configuration {
    /// An empty cluster: no members, no learners.
    fn default() -> (r: Self)
        ensures
            r.members@.len() == 0,
            r.learners@.len() == 0,
            r.wf(),
    {
        Configuration { members: Vec::new(), learners: Vec::new() }
    }
}

/// The configuration as of some committed log index.
#[derive(Debug)]
pub struct ConfigurationSnapshot {
    /// Index of the last log entry applied to this configuration.
    pub last_applied: LogIndex,

    /// Value of the configuration at that index.
    pub data: Configuration,
}

impl Default for ConfigurationSnapshot {
    /// The snapshot of a fresh server: nothing applied, empty configuration.
    fn default() -> (r: Self)
        ensures
            r.last_applied == 0,
            r.data.members@.len() == 0,
            r.data.learners@.len() == 0,
            r.data.wf(),
    {
        ConfigurationSnapshot { last_applied: 0, data: Configuration::default() }
    }
}

/// Borrow of the configuration state machine's committed snapshot.
pub struct ConfigurationSnapshotRef<'a> {
    pub last_applied: LogIndex,
    pub data: &'a Configuration,
}

/// A whole-cluster snapshot: the configuration plus the opaque user state
/// machine bytes.
pub struct Snapshot {
    pub config: Configuration,
    pub state_machine: Vec<u8>,
}

/// The payload of a single log entry.
#[derive(Debug)]
pub enum LogEntryData {
    /// Does nothing but occupies a single log index.
    Noop,

    /// Manages changes to the configuration of the cluster.
    Config(ConfigChange),

    /// Opaque data to be executed on the user state machine once committed.
    Command(Vec<u8>),
}

/// Mathematical value of a [`LogEntryData`].
pub enum EntryDataModel {
    Noop,
    Config(ConfigChange),
    Command(Seq<u8>),
}

impl View for LogEntryData {
    type V = EntryDataModel;

    open spec fn view(&self) -> EntryDataModel {
        match self {
            LogEntryData::Noop => EntryDataModel::Noop,
            LogEntryData::Config(c) => EntryDataModel::Config(*c),
            LogEntryData::Command(d) => EntryDataModel::Command(d@),
        }
    }
}

/// The format of a single entry in every server's append-only log.
#[derive(Debug)]
pub struct LogEntry {
    pub index: LogIndex,
    pub term: Term,
    pub data: LogEntryData,
}

/// Mathematical value of a [`LogEntry`].
pub struct EntryModel {
    pub index: LogIndex,
    pub term: Term,
    pub data: EntryDataModel,
}

impl View for LogEntry {
    type V = EntryModel;

    open spec fn view(&self) -> EntryModel {
        EntryModel { index: self.index, term: self.term, data: self.data@ }
    }
}

/// Copies one log entry; the copy has the same mathematical value.
pub fn clone_entry(e: &LogEntry) -> (r: LogEntry)
    ensures
        r@ == e@,
{
    let data = match &e.data {
        LogEntryData::Noop => LogEntryData::Noop,
        LogEntryData::Config(c) => LogEntryData::Config(*c),
        LogEntryData::Command(d) => {
            let copy: Vec<u8> = clone_bytes(d);
            LogEntryData::Command(copy)
        },
    };
    LogEntry { index: e.index, term: e.term, data }
}

/// Copies a byte vector; the copy holds the same bytes.
pub fn clone_bytes(v: &Vec<u8>) -> (r: Vec<u8>)
    ensures
        r@ == v@,
{
    let mut r: Vec<u8> = Vec::new();
    let mut i: usize = 0;
    while i < v.len()
        invariant
            i <= v.len(),
            r@ == v@.take(i as int),
        decreases v.len() - i,
    {
        r.push(v[i]);
        proof {
            assert(r@ =~= v@.take(i + 1 as int));
        }
        i = i + 1;
    }
    proof {
        assert(v@.take(v@.len() as int) =~= v@);
    }
    r
}

/// Asks a server to vote for the sender in an election.
#[derive(Clone, Copy, Debug, PartialEq, Eq, Structural)]
pub struct RequestVoteRequest {
    pub term: Term,
    pub candidate_id: ServerId,
    pub last_log_index: LogIndex,
    pub last_log_term: Term,
}

/// Answer to a [`RequestVoteRequest`].
#[derive(Clone, Copy, Debug, PartialEq, Eq, Structural)]
pub struct RequestVoteResponse {
    pub term: Term,
    pub vote_granted: bool,
}

/// Replicates a batch of log entries from the claimed leader.
#[derive(Debug)]
pub struct AppendEntriesRequest {
    pub term: Term,
    pub leader_id: ServerId,
    pub prev_log_index: LogIndex,
    pub prev_log_term: Term,
    /// Entries with sequential indexes starting at `prev_log_index + 1`.
    pub entries: Vec<LogEntry>,
    pub leader_commit: LogIndex,
}

/// Answer to an [`AppendEntriesRequest`].
#[derive(Clone, Copy, Debug, PartialEq, Eq)]
pub struct AppendEntriesResponse {
    pub term: Term,
    pub success: bool,

    /// Tells the leader the length of this follower's log so that it can help
    /// resolve any extra entries.
    pub last_log_index: Option<LogIndex>,
}

/// Asks the receiver to time out immediately and start its own election.
#[derive(Clone, Copy, Debug, PartialEq, Eq, Structural)]
pub struct TimeoutNow {}

/// Placeholder for snapshot installation (not part of the core's logic yet).
#[derive(Debug)]
pub struct InstallSnapshotRequest {}

/// Placeholder for the membership-change client request.
pub struct AddServerRequest {}

/// Asks a server to propose a single entry to the state machine.
pub struct ProposeRequest {
    pub data: LogEntryData,

    /// If set, the host should block until the proposal is resolved.
    pub wait: bool,
}

/// Answer to a [`ProposeRequest`].
#[derive(Clone, Copy, Debug, PartialEq, Eq, Structural)]
pub struct ProposeResponse {
    pub term: Term,
    pub index: LogIndex,
}

/// The body of one outbound message requested by the consensus module.
#[derive(Debug)]
pub enum MessageBody {
    PreVote(RequestVoteRequest),
    RequestVote(RequestVoteRequest),
    /// The index is the last log index covered by the request, echoed back to
    /// the module in the append-entries callback.
    AppendEntries(AppendEntriesRequest, LogIndex),
}

/// One outbound message with its recipients.
#[derive(Debug)]
pub struct Message {
    pub to: Vec<ServerId>,
    pub body: MessageBody,
}

} // verus!
