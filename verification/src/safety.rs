//! Cluster-level safety arguments built on the per-module contracts: any two
//! majorities of one membership overlap, so at most one candidate can gather
//! a majority of grants in a term, and a committed entry's replication set
//! always meets a later election's voting set.

use vstd::prelude::*;
use vstd::set_lib::{lemma_len_subset, lemma_set_disjoint_lens};
use crate::protos::{AppendEntriesRequest, RequestVoteRequest, ServerId};
use crate::consensus::{
    batch_wf, spec_first_new, valid_replication_message, ConsensusModule, RaftError,
};
use crate::constraint::MatchConstraint;
use crate::log::LogStore;
use crate::protos::Message;

verus! {

/// The vote count that carries a decision in a cluster with this many voting
/// members, as `majority_size` computes it for a non-empty membership.
pub open spec fn majority_of(n: int) -> int {
    n / 2 + 1
}

/// Quorum overlap: two majorities of the same finite membership always share
/// a server.  This is the pigeonhole at the bottom of both election safety
/// and leader completeness.
pub proof fn lemma_quorum_overlap(members: Set<ServerId>, qa: Set<ServerId>, qb: Set<ServerId>)
    requires
        members.finite(),
        qa.subset_of(members),
        qb.subset_of(members),
        qa.len() >= majority_of(members.len() as int),
        qb.len() >= majority_of(members.len() as int),
    ensures
        exists|s: ServerId| qa.contains(s) && qb.contains(s),
{
    lemma_len_subset(qa, members);
    lemma_len_subset(qb, members);
    if forall|s: ServerId| !(#[trigger] qa.contains(s) && qb.contains(s)) {
        assert(qa.disjoint(qb));
        lemma_set_disjoint_lens(qa, qb);
        assert((qa + qb).len() == qa.len() + qb.len());
        lemma_len_subset(qa + qb, members);
        assert(qa.len() + qb.len() <= members.len());
        assert(2 * majority_of(members.len() as int) > members.len());
        assert(false);
    }
}

/// Election safety: when every voter grants at most one candidate per term —
/// which `request_vote` enforces by never re-granting a term once
/// `voted_for` names a different candidate — two candidates that each
/// collect a majority of grants from the same membership in the same term
/// are one and the same.
///
/// `vote_of` maps each voter to the candidate it granted in the term under
/// consideration; `qa` and `qb` are the sets of voters backing `a` and `b`.
pub proof fn lemma_election_safety(
    members: Set<ServerId>,
    vote_of: Map<ServerId, ServerId>,
    a: ServerId,
    b: ServerId,
    qa: Set<ServerId>,
    qb: Set<ServerId>,
)
    requires
        members.finite(),
        qa.subset_of(members),
        qb.subset_of(members),
        qa.len() >= majority_of(members.len() as int),
        qb.len() >= majority_of(members.len() as int),
        forall|s: ServerId|
            #[trigger] qa.contains(s) ==> vote_of.dom().contains(s) && vote_of[s] == a,
        forall|s: ServerId|
            #[trigger] qb.contains(s) ==> vote_of.dom().contains(s) && vote_of[s] == b,
    ensures
        a == b,
{
    lemma_quorum_overlap(members, qa, qb);
    let s = choose|s: ServerId| qa.contains(s) && qb.contains(s);
    assert(vote_of[s] == a);
    assert(vote_of[s] == b);
}

/// The voting half of leader completeness: a vote is granted only to a
/// candidate whose log is at least as up-to-date as the voter's — a higher
/// last term, or an equal last term and a last index at least as far along.
/// Together with the current-term commitment rule of
/// `find_next_commit_index` and quorum overlap, this keeps committed entries
/// in every later leader's log.
pub proof fn lemma_grant_requires_up_to_date(m: &ConsensusModule, req: RequestVoteRequest)
    requires
        m.pre_vote_grant(req),
    ensures
        req.last_log_term > m.log.spec_last_term() || (req.last_log_term
            == m.log.spec_last_term() && req.last_log_index >= m.log.spec_last_index()),
{
}

/// A vote in the current term never contradicts an earlier one: if the
/// metadata already names a vote for this term, only that same candidate can
/// be granted again (re-granting is idempotent).
pub proof fn lemma_vote_is_stable(m: &ConsensusModule, req: RequestVoteRequest, prior: ServerId)
    requires
        m.pre_vote_grant(req),
        req.term == m.meta.current_term,
        m.meta.voted_for == Some(prior),
    ensures
        req.candidate_id == prior,
{
}

/// A duplicate replication batch is a no-op: when every entry of a
/// well-formed batch is already present in the log (matched by index and
/// term) and the previous position matches, `append_entries` answers with
/// success and leaves the log exactly as it was.  The preconditions restate
/// what that call's contract guarantees of its outcome.
pub proof fn lemma_duplicate_batch_is_noop(
    pre: &ConsensusModule,
    post: &ConsensusModule,
    req: AppendEntriesRequest,
    r: Result<MatchConstraint<crate::protos::AppendEntriesResponse>, RaftError>,
)
    requires
        pre.log.wf(),
        post.log.wf(),
        post.log.prev_index == pre.log.prev_index,
        ConsensusModule::batch_outcome(pre, post, req, false, r),
        ConsensusModule::log_is_extension(pre, post),
        batch_wf(req),
        spec_first_new(pre.log, req.entries@) == req.entries@.len(),
        !(pre.log@.len() > 0 && req.prev_log_index < pre.log.prev_index),
        pre.log.spec_term_at(req.prev_log_index as int) == Some(req.prev_log_term),
    ensures
        r matches Ok(mc) && mc.inner.success,
        post.log@ == pre.log@,
{
    assert(!ConsensusModule::spec_has_conflict(pre.log, req));
    assert(!ConsensusModule::spec_append_gap(pre.log, req));
    assert(ConsensusModule::spec_last_new(pre.log, req).index == req.prev_log_index);
    assert(req.prev_log_index <= pre.log.spec_last_index());
    assert(post.log.spec_last_index() == pre.log.spec_last_index());
    assert(post.log@.len() == pre.log@.len());
    assert forall|k: int| 0 <= k < pre.log@.len() implies post.log@[k] == pre.log@[k] by {
        assert(pre.log.has_entry(pre.log.prev_index + 1 + k));
        assert(post.log.spec_entry_at(pre.log.prev_index + 1 + k) == pre.log.spec_entry_at(
            pre.log.prev_index + 1 + k,
        ));
    }
    assert(post.log@ =~= pre.log@);
}

/// Safety composes across handler invocations: if two successive steps each
/// preserve the safety relation — the term and commit index never decrease
/// and committed entries survive unchanged — then so does their
/// composition.  Chained over a run, the current term and the commit index
/// observed across successive ticks never decrease.
pub proof fn lemma_step_safe_transitive(a: &ConsensusModule, b: &ConsensusModule, c: &ConsensusModule)
    requires
        ConsensusModule::step_safe(a, b),
        ConsensusModule::step_safe(b, c),
    ensures
        ConsensusModule::step_safe(a, c),
{
    assert forall|i: int|
        0 < i <= a.meta.commit_index && a.log.has_entry(i) implies c.log.has_entry(i)
        && c.log.spec_entry_at(i) == a.log.spec_entry_at(i) by {
        assert(b.log.has_entry(i) && b.log.spec_entry_at(i) == a.log.spec_entry_at(i));
        assert(i <= b.meta.commit_index);
    }
}

/// The cross-server half of log matching, one step at a time: when a
/// follower accepts a replication message that the leader built — its
/// entries are exactly the leader's log after the stated previous position —
/// the follower's log afterwards carries the leader's term at every index
/// the message covered, and the leader's very entries at every index it
/// appended.  Chained along an execution, with election safety bounding the
/// writers of each term, this is what keeps two logs identical up to a
/// shared position.
pub proof fn lemma_log_matching_step(
    leader_log: LogStore,
    term: u64,
    leader_id: u64,
    leader_commit: u64,
    m: Message,
    req: crate::protos::AppendEntriesRequest,
    pre: &ConsensusModule,
    post: &ConsensusModule,
    r: Result<MatchConstraint<crate::protos::AppendEntriesResponse>, RaftError>,
)
    requires
        leader_log.wf(),
        valid_replication_message(m, term, leader_id, leader_commit, leader_log),
        req.prev_log_index >= leader_log.prev_index,
        m.body matches crate::protos::MessageBody::AppendEntries(req0, _) && req0 == req,
        batch_wf(req),
        ConsensusModule::batch_outcome(pre, post, req, false, r),
        post.log.wf(),
        !(pre.log@.len() > 0 && req.prev_log_index < pre.log.prev_index),
        pre.log.spec_term_at(req.prev_log_index as int) == Some(req.prev_log_term),
        !(ConsensusModule::spec_has_conflict(pre.log, req) && req.entries@[spec_first_new(
            pre.log,
            req.entries@,
        )].index <= pre.meta.commit_index),
        !ConsensusModule::spec_append_gap(pre.log, req),
    ensures
        r matches Ok(mc) && mc.inner.success,
        forall|j: int|
            0 <= j < req.entries@.len() ==> post.log.spec_term_at(
                (#[trigger] req.entries@[j]).index as int,
            ) == leader_log.spec_term_at(req.entries@[j].index as int),
        forall|j: int|
            0 <= j < req.entries@.len() && spec_first_new(pre.log, req.entries@) <= j
                ==> post.log.spec_entry_at((#[trigger] req.entries@[j]).index as int)
                == leader_log.spec_entry_at(req.entries@[j].index as int),
{
    assert forall|j: int|
        0 <= j < req.entries@.len() implies post.log.spec_term_at(
        (#[trigger] req.entries@[j]).index as int,
    ) == leader_log.spec_term_at(req.entries@[j].index as int) by {
        assert(req.entries@[j]@ == leader_log.spec_entry_at(req.prev_log_index + 1 + j));
        assert(req.entries@[j].index == req.prev_log_index + 1 + j);
        assert(leader_log.has_entry(req.entries@[j].index as int));
        assert(leader_log.spec_term_at(req.entries@[j].index as int) == Some(
            req.entries@[j].term,
        ));
        assert(post.log.spec_term_at(req.entries@[j].index as int) == Some(
            req.entries@[j].term,
        ));
    }
    assert forall|j: int|
        0 <= j < req.entries@.len() && spec_first_new(pre.log, req.entries@)
            <= j implies post.log.spec_entry_at(
        (#[trigger] req.entries@[j]).index as int,
    ) == leader_log.spec_entry_at(req.entries@[j].index as int) by {
        assert(req.entries@[j]@ == leader_log.spec_entry_at(req.prev_log_index + 1 + j));
        assert(req.entries@[j].index == req.prev_log_index + 1 + j);
        assert(post.log.spec_entry_at(req.entries@[j].index as int) == req.entries@[j]@);
    }
}

} // verus!
