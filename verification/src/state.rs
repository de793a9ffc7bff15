//! Role-specific volatile state of one server: Follower, Candidate or Leader.

use vstd::prelude::*;
use crate::protos::{LogIndex, ServerId, Term};

verus! {

/// What the leader knows about one other server's replication progress.
#[derive(Clone, Copy, Debug, PartialEq, Eq)]
pub struct ServerProgress {
    /// Index of the next entry to send to that server (always at least 1).
    pub next_index: LogIndex,

    /// Highest index known replicated on that server.
    pub match_index: LogIndex,

    /// Time (milliseconds) at which we last sent that server a request.
    pub last_sent: Option<u64>,

    /// Whether a request to that server is currently in flight; at most one
    /// request is kept in flight per follower.
    pub request_pending: bool,
}

impl ServerProgress {
    /// Progress for a server first seen when our log ends at
    /// `last_log_index`.
    pub fn new(last_log_index: LogIndex) -> (r: Self)
        requires
            last_log_index < u64::MAX,
        ensures
            r.next_index == last_log_index + 1,
            r.match_index == 0,
            r.last_sent is None,
            !r.request_pending,
    {
        ServerProgress {
            next_index: last_log_index + 1,
            match_index: 0,
            last_sent: None,
            request_pending: false,
        }
    }
}

/// Bookkeeping while this server is a follower.
#[derive(Clone, Copy, Debug, PartialEq, Eq)]
pub struct ServerFollowerState {
    /// Milliseconds without a heartbeat after which an election starts.
    pub election_timeout: u64,

    /// The last server we accepted append-entries from, used as the
    /// leader hint in `NotLeader` errors.
    pub last_leader_id: Option<ServerId>,

    /// Time (milliseconds) of the last heartbeat we accepted.
    pub last_heartbeat: u64,
}

/// Bookkeeping while this server is a candidate.
#[derive(Debug)]
pub struct ServerCandidateState {
    /// Time (milliseconds) at which the election started.
    pub election_start: u64,

    /// Milliseconds after `election_start` at which the election is retried.
    pub election_timeout: u64,

    /// Servers other than ourselves that granted us a vote this term.
    pub votes_received: Vec<ServerId>,

    /// Whether any server rejected our vote request this term.
    pub some_rejected: bool,
}

impl ServerCandidateState {
    /// Well-formedness: the vote list holds no duplicates.
    pub open spec fn wf(&self) -> bool {
        forall|i: int, j: int|
            0 <= i < j < self.votes_received@.len() ==> self.votes_received@[i]
                != self.votes_received@[j]
    }

    /// Records a granted vote; granting twice is idempotent.
    pub fn add_vote(&mut self, id: ServerId)
        requires
            old(self).wf(),
        ensures
            final(self).wf(),
            forall|x: ServerId|
                #[trigger] final(self).votes_received@.contains(x)
                    <==> (old(self).votes_received@.contains(x) || x == id),
            final(self).votes_received@.len() >= old(self).votes_received@.len(),
            old(self).votes_received@.contains(id) ==> final(self).votes_received@ == old(self).votes_received@,
            !old(self).votes_received@.contains(id) ==> final(self).votes_received@ == old(self).votes_received@.push(id),
            final(self).election_start == old(self).election_start,
            final(self).election_timeout == old(self).election_timeout,
            final(self).some_rejected == old(self).some_rejected,
    {
        if !crate::util::ids_contain(&self.votes_received, id) {
            self.votes_received.push(id);
            proof {
                let pre = old(self).votes_received@;
                let post = self.votes_received@;
                assert forall|x: ServerId| #[trigger]
                    post.contains(x) implies (pre.contains(x) || x == id) by {
                    let i = choose|i: int| 0 <= i < post.len() && post[i] == x;
                    if i < pre.len() {
                        assert(pre[i] == x);
                    }
                }
                assert forall|x: ServerId|
                    (pre.contains(x) || x == id) implies #[trigger] post.contains(x) by {
                    if x == id {
                        assert(post[pre.len() as int] == x);
                    } else {
                        let i = choose|i: int| 0 <= i < pre.len() && pre[i] == x;
                        assert(post[i] == x);
                    }
                }
            }
        }
    }
}

/// Bookkeeping while this server is the leader: per-server replication
/// progress, keyed by server id.
#[derive(Debug)]
pub struct ServerLeaderState {
    pub servers: Vec<(ServerId, ServerProgress)>,
}

impl ServerLeaderState {
    /// The ids holding a progress entry, in insertion order.
    pub open spec fn ids(&self) -> Seq<ServerId> {
        self.servers@.map(|k: int, t: (ServerId, ServerProgress)| t.0)
    }

    /// Well-formedness: ids are unique and every `next_index` is at least 1.
    pub open spec fn wf(&self) -> bool {
        &&& forall|i: int, j: int|
            0 <= i < j < self.servers@.len() ==> (#[trigger] self.servers@[i]).0 != (
            #[trigger] self.servers@[j]).0
        &&& forall|i: int|
            0 <= i < self.servers@.len() ==> (#[trigger] self.servers@[i]).1.next_index >= 1
    }

    /// The progress recorded for `id`, if any.
    pub open spec fn spec_progress_of(&self, id: ServerId) -> Option<ServerProgress> {
        if exists|i: int| 0 <= i < self.servers@.len() && (#[trigger] self.servers@[i]).0 == id {
            let i = choose|i: int|
                0 <= i < self.servers@.len() && (#[trigger] self.servers@[i]).0 == id;
            Some(self.servers@[i].1)
        } else {
            None
        }
    }

    /// Position of `id`'s progress entry, if any.
    pub fn find(&self, id: ServerId) -> (r: Option<usize>)
        ensures
            r matches Some(k) ==> k < self.servers@.len() && self.servers@[k as int].0 == id
                && self.spec_progress_of(id) is Some,
            r is None ==> !self.ids().contains(id) && self.spec_progress_of(id) is None,
    {
        let mut i: usize = 0;
        while i < self.servers.len()
            invariant
                i <= self.servers@.len(),
                forall|k: int| 0 <= k < i ==> (#[trigger] self.servers@[k]).0 != id,
            decreases self.servers@.len() - i,
        {
            if self.servers[i].0 == id {
                return Some(i);
            }
            i = i + 1;
        }
        proof {
            assert(forall|k: int|
                0 <= k < self.ids().len() ==> self.ids()[k] == (#[trigger] self.servers@[k]).0);
        }
        None
    }

    /// The progress recorded for `id`, if any.
    pub fn get(&self, id: ServerId) -> (r: Option<ServerProgress>)
        requires
            self.wf(),
        ensures
            r == self.spec_progress_of(id),
    {
        match self.find(id) {
            Some(k) => {
                let p = self.servers[k].1;
                proof {
                    let i = choose|i: int|
                        0 <= i < self.servers@.len() && (#[trigger] self.servers@[i]).0 == id;
                    assert(i == k as int);
                }
                Some(p)
            },
            None => None,
        }
    }

    /// Stores `p` as the progress for `id`, replacing any previous entry.
    pub fn put(&mut self, id: ServerId, p: ServerProgress)
        requires
            old(self).wf(),
            p.next_index >= 1,
        ensures
            final(self).wf(),
            final(self).spec_progress_of(id) == Some(p),
            forall|x: ServerId|
                x != id ==> #[trigger] final(self).spec_progress_of(x)
                    == old(self).spec_progress_of(x),
            forall|x: ServerId|
                #[trigger] final(self).ids().contains(x) <==> (old(self).ids().contains(x) || x
                    == id),
    {
        let found = self.find(id);
        let ghost k: int = match found {
            Some(k) => k as int,
            None => self.servers@.len() as int,
        };
        match found {
            Some(i) => {
                self.servers.set(i, (id, p));
            },
            None => {
                self.servers.push((id, p));
            },
        }
        proof {
            let post = self.servers@;
            let pre = old(self).servers@;
            assert(post[k] == (id, p));
            assert(forall|i: int| 0 <= i < post.len() && i != k ==> post[i] == pre[i]);
            assert(forall|i: int| 0 <= i < post.len() && i != k ==> (#[trigger] post[i]).0 != id);
            assert forall|x: ServerId| x != id implies #[trigger] final(self).spec_progress_of(x)
                == old(self).spec_progress_of(x) by {
                if exists|i: int| 0 <= i < post.len() && (#[trigger] post[i]).0 == x {
                    let i = choose|i: int| 0 <= i < post.len() && (#[trigger] post[i]).0 == x;
                    assert(pre[i].0 == x);
                } else {
                    assert(forall|i: int|
                        0 <= i < pre.len() ==> (#[trigger] pre[i]).0 != x) by {
                        assert(forall|i: int|
                            0 <= i < pre.len() && (#[trigger] pre[i]).0 == x ==> post[i].0 == x);
                    }
                }
            }
            assert forall|x: ServerId| #[trigger]
                final(self).ids().contains(x) implies (old(self).ids().contains(x) || x
                == id) by {
                let i = choose|i: int| 0 <= i < final(self).ids().len() && final(self).ids()[i]
                    == x;
                if i != k {
                    assert(old(self).ids()[i] == x);
                }
            }
            assert forall|x: ServerId|
                (old(self).ids().contains(x) || x == id) implies #[trigger] final(self).ids().contains(x) by {
                if x == id {
                    assert(final(self).ids()[k] == x);
                } else {
                    let i = choose|i: int| 0 <= i < old(self).ids().len() && old(self).ids()[i]
                        == x;
                    assert(final(self).ids()[i] == x);
                }
            }
        }
    }
}

/// The role-specific state of the server.  Transitions replace the whole
/// value.
#[derive(Debug)]
pub enum ServerState {
    Follower(ServerFollowerState),
    Candidate(ServerCandidateState),
    Leader(ServerLeaderState),
}

} // verus!
