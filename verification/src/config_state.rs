//! The configuration state machine: absorbs `Config` log entries into an
//! in-memory membership view, supports revert on log truncation, and tracks
//! which configuration is committed and may be persisted.

use vstd::prelude::*;
use crate::protos::{
    clone_config, ConfigChange, Configuration, ConfigurationSnapshot, ConfigurationSnapshotRef,
    LogEntry, LogEntryData, LogIndex, ServerId,
};

verus! {

/// One applied-but-uncommitted configuration change: the index of the log
/// entry that carried it and the configuration that was current just before
/// it was applied (restored if the entry is truncated away).
#[derive(Debug)]
pub struct PendingConfiguration {
    pub index: LogIndex,
    pub prior: Configuration,
}

/// Relates a configuration before and after one membership change, as the
/// state machine absorbs it.  Adding a current member as a learner is not a
/// meaningful change and leaves the configuration untouched.
pub open spec fn change_applies(pre: Configuration, post: Configuration, c: ConfigChange) -> bool {
    match c {
        ConfigChange::AddMember(s) => {
            &&& forall|x: ServerId| #[trigger] post.is_member(x) <==> (pre.is_member(x) || x == s)
            &&& forall|x: ServerId| #[trigger] post.is_learner(x) <==> (pre.is_learner(x) && x != s)
        },
        ConfigChange::AddLearner(s) => {
            &&& forall|x: ServerId| #[trigger] post.is_member(x) <==> pre.is_member(x)
            &&& forall|x: ServerId| #[trigger]
                post.is_learner(x) <==> (pre.is_learner(x) || (x == s && !pre.is_member(s)))
        },
        ConfigChange::RemoveServer(s) => {
            &&& forall|x: ServerId| #[trigger] post.is_member(x) <==> (pre.is_member(x) && x != s)
            &&& forall|x: ServerId| #[trigger] post.is_learner(x) <==> (pre.is_learner(x) && x != s)
        },
    }
}

/// True iff the change is meaningless for the configuration it is applied
/// to: adding a current voting member as a learner.
pub open spec fn change_is_noop(pre: Configuration, c: ConfigChange) -> bool {
    c matches ConfigChange::AddLearner(s) && pre.is_member(s)
}

/// How many entries at the front of an ascending pending list have an index
/// at most `ci` (the prefix that a commit at `ci` folds away).
pub open spec fn spec_fold_count(s: Seq<PendingConfiguration>, ci: LogIndex) -> int
    decreases s.len(),
{
    if s.len() == 0 {
        0
    } else if s[0].index <= ci {
        1 + spec_fold_count(s.drop_first(), ci)
    } else {
        0
    }
}

/// For an ascending list, the fold count marks the boundary: everything
/// before it has index at most `ci`, everything after has index above `ci`.
proof fn lemma_fold_count_props(s: Seq<PendingConfiguration>, ci: LogIndex)
    requires
        forall|k: int, l: int| 0 <= k < l < s.len() ==> (#[trigger] s[k]).index < (
        #[trigger] s[l]).index,
    ensures
        0 <= spec_fold_count(s, ci) <= s.len(),
        forall|k: int| 0 <= k < spec_fold_count(s, ci) ==> (#[trigger] s[k]).index <= ci,
        forall|k: int| spec_fold_count(s, ci) <= k < s.len() ==> (#[trigger] s[k]).index > ci,
    decreases s.len(),
{
    if s.len() == 0 {
    } else if s[0].index <= ci {
        let t = s.drop_first();
        assert(forall|k: int| 0 <= k < t.len() ==> (#[trigger] t[k]).index == s[k + 1].index);
        lemma_fold_count_props(t, ci);
        let n = spec_fold_count(s, ci);
        assert(n == 1 + spec_fold_count(t, ci));
        assert forall|k: int| 0 <= k < n implies (#[trigger] s[k]).index <= ci by {
            if k >= 1 {
                assert(t[k - 1].index <= ci);
            }
        }
        assert forall|k: int| n <= k < s.len() implies (#[trigger] s[k]).index > ci by {
            assert(t[k - 1].index > ci);
        }
    } else {
    }
}

/// For an ascending list, the fold count is exactly the length of the prefix
/// whose indexes are at most `ci`.
proof fn lemma_fold_count_char(s: Seq<PendingConfiguration>, ci: LogIndex, n: int)
    requires
        forall|k: int, l: int| 0 <= k < l < s.len() ==> (#[trigger] s[k]).index < (
        #[trigger] s[l]).index,
        0 <= n <= s.len(),
        forall|k: int| 0 <= k < n ==> (#[trigger] s[k]).index <= ci,
        n < s.len() ==> s[n].index > ci,
    ensures
        spec_fold_count(s, ci) == n,
    decreases s.len(),
{
    if s.len() == 0 {
    } else if s[0].index <= ci {
        assert(n >= 1);
        let t = s.drop_first();
        assert(forall|k: int| 0 <= k < n - 1 ==> (#[trigger] t[k]).index == s[k + 1].index);
        lemma_fold_count_char(t, ci, n - 1);
    } else {
        assert(n == 0);
    }
}

/// The configuration state machine.  `value` is the configuration after
/// every absorbed entry; `committed` is the newest configuration known
/// committed (the only one that may be persisted); `pending` records the
/// uncommitted changes in between, oldest first.
#[derive(Debug)]
pub struct ConfigurationStateMachine {
    /// The newest committed configuration snapshot.
    pub committed: ConfigurationSnapshot,

    /// Applied but uncommitted changes, ascending by log index.
    pub pending: Vec<PendingConfiguration>,

    /// The configuration after every absorbed entry.
    pub value: Configuration,

    /// Index of the last log entry absorbed.
    pub last_applied: LogIndex,
}

impl ConfigurationStateMachine {
    /// Index of the newest uncommitted configuration change, if any.
    pub open spec fn spec_pending_last(&self) -> Option<LogIndex> {
        if self.pending@.len() == 0 {
            None
        } else {
            Some(self.pending@.last().index)
        }
    }

    /// Well-formedness: every held configuration is well formed, pending
    /// indexes ascend strictly, sit above the committed snapshot, and never
    /// pass `last_applied`.
    pub open spec fn inv(&self) -> bool {
        &&& self.committed.data.wf()
        &&& self.value.wf()
        &&& forall|k: int| 0 <= k < self.pending@.len() ==> (#[trigger] self.pending@[k]).prior.wf()
        &&& forall|k: int, l: int|
            0 <= k < l < self.pending@.len() ==> (#[trigger] self.pending@[k]).index < (
            #[trigger] self.pending@[l]).index
        &&& forall|k: int|
            0 <= k < self.pending@.len() ==> (#[trigger] self.pending@[k]).index
                > self.committed.last_applied
        &&& forall|k: int|
            0 <= k < self.pending@.len() ==> (#[trigger] self.pending@[k]).index
                <= self.last_applied
        &&& self.committed.last_applied <= self.last_applied
    }

    /// Internalizes a committed configuration snapshot.
    pub fn from_snapshot(snapshot: ConfigurationSnapshot) -> (r: Self)
        requires
            snapshot.data.wf(),
        ensures
            r.inv(),
            r.committed.last_applied == snapshot.last_applied,
            r.committed.data.members@ == snapshot.data.members@,
            r.committed.data.learners@ == snapshot.data.learners@,
            r.value.members@ == snapshot.data.members@,
            r.value.learners@ == snapshot.data.learners@,
            r.pending@.len() == 0,
            r.last_applied == snapshot.last_applied,
    {
        let value = clone_config(&snapshot.data);
        proof {
            crate::protos::lemma_wf_from_views(&snapshot.data, &value);
        }
        let last_applied = snapshot.last_applied;
        ConfigurationStateMachine { committed: snapshot, pending: Vec::new(), value, last_applied }
    }

    /// Absorbs one log entry.  Entries at or below `last_applied` were
    /// already absorbed and change nothing.  A `Config` entry updates
    /// `value`; if the entry is already committed the change folds straight
    /// into the committed snapshot, else it is recorded as pending.
    pub fn apply(&mut self, e: &LogEntry, commit_index: LogIndex)
        requires
            old(self).inv(),
        ensures
            final(self).inv(),
            e.index <= old(self).last_applied ==> *final(self) == *old(self),
            e.index > old(self).last_applied ==> {
                &&& final(self).last_applied == e.index
                &&& !(e.data is Config) ==> {
                    &&& final(self).value == old(self).value
                    &&& final(self).pending@ == old(self).pending@
                    &&& final(self).committed == old(self).committed
                }
                &&& e.data matches LogEntryData::Config(c) ==> {
                    &&& change_applies(old(self).value, final(self).value, c)
                    &&& change_is_noop(old(self).value, c) ==> {
                        &&& final(self).value == old(self).value
                        &&& final(self).pending@ == old(self).pending@
                        &&& final(self).committed == old(self).committed
                    }
                    &&& !change_is_noop(old(self).value, c) && e.index > commit_index ==> {
                        &&& final(self).committed == old(self).committed
                        &&& final(self).spec_pending_last() == Some(e.index)
                    }
                    &&& !change_is_noop(old(self).value, c) && e.index <= commit_index ==> {
                        &&& final(self).pending@.len() == 0
                        &&& final(self).committed.last_applied == e.index
                    }
                }
            },
            final(self).committed.last_applied >= old(self).committed.last_applied,
            final(self).last_applied >= old(self).last_applied,
    {
        if e.index <= self.last_applied {
            return ;
        }
        self.last_applied = e.index;
        match &e.data {
            LogEntryData::Config(c) => {
                let skip = match c {
                    ConfigChange::AddLearner(s) => self.value.contains_member(*s),
                    _ => false,
                };
                if !skip {
                    let prior = clone_config(&self.value);
                    proof {
                        crate::protos::lemma_wf_from_views(&self.value, &prior);
                    }
                    self.value.apply(c);
                    self.pending.push(PendingConfiguration { index: e.index, prior });
                    proof {
                        let post = self.pending@;
                        let pre = old(self).pending@;
                        assert(post.len() == pre.len() + 1);
                        assert(forall|k: int| 0 <= k < pre.len() ==> post[k] == pre[k]);
                        assert(post[pre.len() as int].index == e.index);
                        assert(forall|k: int|
                            0 <= k < pre.len() ==> (#[trigger] pre[k]).index <= old(
                                self,
                            ).last_applied);
                        assert(self.inv());
                    }
                    if e.index <= commit_index {
                        let ghost pend = self.pending@;
                        let _folded = self.commit(commit_index);
                        proof {
                            assert(forall|k: int|
                                0 <= k < pend.len() ==> (#[trigger] pend[k]).index
                                    <= commit_index);
                            lemma_fold_count_char(pend, commit_index, pend.len() as int);
                            assert(final(self).pending@ =~= pend.skip(pend.len() as int));
                        }
                    }
                } else {
                    proof {
                        assert(change_applies(old(self).value, self.value, *c));
                    }
                }
            },
            _ => {},
        }
    }

    /// Advances the committed snapshot to cover every pending change at or
    /// below `commit_index`; true iff a pending change became committed (the
    /// host should then persist the snapshot).
    pub fn commit(&mut self, commit_index: LogIndex) -> (r: bool)
        requires
            old(self).inv(),
        ensures
            final(self).inv(),
            final(self).value == old(self).value,
            final(self).last_applied == old(self).last_applied,
            0 <= spec_fold_count(old(self).pending@, commit_index) <= old(self).pending@.len(),
            final(self).pending@ == old(self).pending@.skip(
                spec_fold_count(old(self).pending@, commit_index),
            ),
            forall|k: int|
                0 <= k < final(self).pending@.len() ==> (#[trigger] final(self).pending@[k])
                    == old(self).pending@[k + spec_fold_count(old(self).pending@, commit_index)],
            r <==> spec_fold_count(old(self).pending@, commit_index) > 0,
            !r ==> final(self).committed == old(self).committed,
            r ==> final(self).committed.last_applied == old(self).pending@[spec_fold_count(
                old(self).pending@,
                commit_index,
            ) - 1].index,
            r ==> final(self).committed.last_applied <= commit_index,
            final(self).committed.last_applied >= old(self).committed.last_applied,
    {
        let mut n: usize = 0;
        while n < self.pending.len() && self.pending[n].index <= commit_index
            invariant
                *self == *old(self),
                self.inv(),
                n <= self.pending@.len(),
                forall|k: int| 0 <= k < n ==> (#[trigger] self.pending@[k]).index <= commit_index,
            decreases self.pending@.len() - n,
        {
            n = n + 1;
        }
        proof {
            lemma_fold_count_char(self.pending@, commit_index, n as int);
        }
        if n == 0 {
            return false;
        }
        let idx = self.pending[n - 1].index;
        let data = if n < self.pending.len() {
            let d = clone_config(&self.pending[n].prior);
            proof {
                crate::protos::lemma_wf_from_views(&self.pending@[n as int].prior, &d);
            }
            d
        } else {
            let d = clone_config(&self.value);
            proof {
                crate::protos::lemma_wf_from_views(&self.value, &d);
            }
            d
        };
        self.committed = ConfigurationSnapshot { last_applied: idx, data };
        let ghost committed_now = self.committed;
        let mut k: usize = 0;
        while k < n
            invariant
                k <= n,
                n <= old(self).pending@.len(),
                self.pending@ == old(self).pending@.skip(k as int),
                self.committed == committed_now,
                self.value == old(self).value,
                self.last_applied == old(self).last_applied,
            decreases n - k,
        {
            self.pending.remove(0);
            proof {
                assert(self.pending@ =~= old(self).pending@.skip(k + 1 as int));
            }
            k = k + 1;
        }
        proof {
            assert(self.pending@ == old(self).pending@.skip(n as int));
            assert(forall|j: int|
                0 <= j < self.pending@.len() ==> (#[trigger] self.pending@[j]) == old(
                    self,
                ).pending@[j + n]);
        }
        true
    }

    /// Undoes the application of every entry with index `from_index` or
    /// above; used when the log truncates a conflicting suffix.
    pub fn revert(&mut self, from_index: LogIndex)
        requires
            old(self).inv(),
            from_index >= 1,
            from_index > old(self).committed.last_applied,
        ensures
            final(self).inv(),
            final(self).committed == old(self).committed,
            final(self).last_applied == (if old(self).last_applied <= from_index - 1 {
                old(self).last_applied as int
            } else {
                from_index - 1
            }),
            final(self).pending@ == old(self).pending@.take(
                spec_fold_count(old(self).pending@, (from_index - 1) as u64),
            ),
            ({
                let m = spec_fold_count(old(self).pending@, (from_index - 1) as u64);
                if m == old(self).pending@.len() {
                    final(self).value == old(self).value
                } else {
                    final(self).value == old(self).pending@[m].prior
                }
            }),
            forall|k: int|
                0 <= k < final(self).pending@.len() ==> (#[trigger] final(self).pending@[k]).index
                    < from_index,
    {
        proof {
            lemma_fold_count_props(self.pending@, (from_index - 1) as u64);
        }
        let ghost m = spec_fold_count(old(self).pending@, (from_index - 1) as u64);
        while self.pending.len() > 0 && self.pending[self.pending.len() - 1].index >= from_index
            invariant
                old(self).inv(),
                m == spec_fold_count(old(self).pending@, (from_index - 1) as u64),
                m <= self.pending@.len() <= old(self).pending@.len(),
                self.pending@ == old(self).pending@.take(self.pending@.len() as int),
                self.committed == old(self).committed,
                self.last_applied == old(self).last_applied,
                (if self.pending@.len() == old(self).pending@.len() {
                    self.value == old(self).value
                } else {
                    self.value == old(self).pending@[self.pending@.len() as int].prior
                }),
                forall|k: int, l: int|
                    0 <= k < l < old(self).pending@.len() ==> (
                    #[trigger] old(self).pending@[k]).index < (#[trigger] old(
                        self,
                    ).pending@[l]).index,
                forall|k: int|
                    m <= k < old(self).pending@.len() ==> (#[trigger] old(
                        self,
                    ).pending@[k]).index >= from_index,
                forall|k: int|
                    0 <= k < m ==> (#[trigger] old(self).pending@[k]).index < from_index,
            decreases self.pending@.len(),
        {
            let p = self.pending.pop();
            match p {
                Some(p) => {
                    self.value = p.prior;
                },
                None => {},
            }
            proof {
                assert(self.pending@ =~= old(self).pending@.take(self.pending@.len() as int));
            }
        }
        if self.last_applied > from_index - 1 {
            self.last_applied = from_index - 1;
        }
        proof {
            assert(self.pending@.len() == m);
            assert(self.pending@ =~= old(self).pending@.take(m));
        }
    }

    /// The committed configuration snapshot currently in memory (the only
    /// form that may be persisted).
    pub fn snapshot(&self) -> (r: ConfigurationSnapshotRef<'_>)
        ensures
            r.last_applied == self.committed.last_applied,
            r.data == &self.committed.data,
    {
        ConfigurationSnapshotRef {
            last_applied: self.committed.last_applied,
            data: &self.committed.data,
        }
    }

    /// Index of the newest uncommitted configuration change, if any.
    pub fn pending_last_change(&self) -> (r: Option<LogIndex>)
        ensures
            r == self.spec_pending_last(),
    {
        if self.pending.len() == 0 {
            None
        } else {
            Some(self.pending[self.pending.len() - 1].index)
        }
    }
}

} // verus!
