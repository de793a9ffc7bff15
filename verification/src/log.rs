//! In-memory view of the server's append-only log.
//!
//! The log is an external collaborator of the consensus module: the host
//! mirrors it to durable storage and advances the durability marker
//! ([`LogStore::set_match_index`]) as entries are flushed.  The module reaches
//! the log only through the capability set below: first/last index, term
//! lookup, entry lookup, append, suffix truncation, and the durable
//! match-index marker.

use vstd::prelude::*;
use crate::protos::{EntryModel, LogEntry, LogIndex, Term};

verus! {

/// The log as held in memory: the position just before the first retained
/// entry (`prev_index`, `prev_term`, both 0 when nothing was compacted away),
/// the retained entries themselves, and the durability marker.
#[derive(Debug)]
pub struct LogStore {
    /// Index of the position just before the first retained entry.
    pub prev_index: LogIndex,

    /// Term of the entry at `prev_index` (0 when `prev_index` is 0).
    pub prev_term: Term,

    /// Retained entries; entry `k` has index `prev_index + 1 + k`.
    pub entries: Vec<LogEntry>,

    /// Highest index durably flushed by the host (0 when none).
    pub flushed: LogIndex,
}

impl View for LogStore {
    type V = Seq<EntryModel>;

    /// The retained entries as a sequence of mathematical values.
    open spec fn view(&self) -> Seq<EntryModel> {
        self.entries@.map(|k: int, e: LogEntry| e@)
    }
}

impl LogStore {
    /// Index of the last entry, or `prev_index` when no entry is retained.
    pub open spec fn spec_last_index(&self) -> int {
        self.prev_index + self.entries@.len()
    }

    /// Index of the first retained entry (meaningful only when non-empty).
    pub open spec fn spec_first_index(&self) -> int {
        self.prev_index + 1
    }

    /// Term of the last entry, or `prev_term` when no entry is retained.
    pub open spec fn spec_last_term(&self) -> Term {
        if self.entries@.len() == 0 {
            self.prev_term
        } else {
            self.entries@.last().term
        }
    }

    /// Term recorded at index `i`: 0 before any log, the base term at the
    /// compaction point, the entry's term inside the log, nothing beyond it.
    pub open spec fn spec_term_at(&self, i: int) -> Option<Term> {
        if i == 0 {
            Some(0u64)
        } else if i == self.prev_index {
            Some(self.prev_term)
        } else if self.prev_index < i <= self.spec_last_index() {
            Some(self.entries@[i - self.prev_index - 1].term)
        } else {
            None
        }
    }

    /// The entry retained at index `i` (meaningful when `prev_index < i <=
    /// last`).
    pub open spec fn spec_entry_at(&self, i: int) -> EntryModel {
        self@[i - self.prev_index - 1]
    }

    /// True iff a real entry is retained at index `i`.
    pub open spec fn has_entry(&self, i: int) -> bool {
        self.prev_index < i <= self.spec_last_index()
    }

    /// Well-formedness: indexes are contiguous from `prev_index + 1`, terms
    /// never decrease, and the durability marker stays inside the log.
    pub open spec fn wf(&self) -> bool {
        &&& self.prev_index == 0 ==> self.prev_term == 0
        &&& self.prev_index + self.entries@.len() <= u64::MAX
        &&& forall|k: int|
            0 <= k < self.entries@.len() ==> (#[trigger] self.entries@[k]).index
                == self.prev_index + 1 + k
        &&& forall|k: int|
            0 <= k < self.entries@.len() ==> (#[trigger] self.entries@[k]).term >= self.prev_term
        &&& forall|k: int, l: int|
            0 <= k <= l < self.entries@.len() ==> (#[trigger] self.entries@[k]).term <= (
            #[trigger] self.entries@[l]).term
        &&& self.flushed <= self.spec_last_index()
    }

    /// A fresh, empty log.
    pub fn new() -> (r: Self)
        ensures
            r.wf(),
            r.prev_index == 0,
            r.prev_term == 0,
            r@.len() == 0,
            r.flushed == 0,
    {
        LogStore { prev_index: 0, prev_term: 0, entries: Vec::new(), flushed: 0 }
    }

    /// An empty log whose prefix up to `prev_index` was compacted away;
    /// `prev_term` is the term recorded at the compaction point.
    pub fn with_base(prev_index: LogIndex, prev_term: Term) -> (r: Self)
        requires
            prev_index == 0 ==> prev_term == 0,
        ensures
            r.wf(),
            r.prev_index == prev_index,
            r.prev_term == prev_term,
            r@.len() == 0,
            r.flushed == 0,
    {
        LogStore { prev_index, prev_term, entries: Vec::new(), flushed: 0 }
    }

    /// Index of the first retained entry; nothing when the log is empty.
    pub fn first_index(&self) -> (r: Option<LogIndex>)
        requires
            self.wf(),
        ensures
            r matches Some(i) ==> self@.len() > 0 && i == self.spec_first_index(),
            r is None ==> self@.len() == 0,
    {
        if self.entries.len() == 0 {
            None
        } else {
            Some(self.prev_index + 1)
        }
    }

    /// Index of the last entry; nothing when the log is empty and was never
    /// compacted.
    pub fn last_index(&self) -> (r: Option<LogIndex>)
        requires
            self.wf(),
        ensures
            r matches Some(i) ==> i == self.spec_last_index() && i > 0,
            r is None ==> self.spec_last_index() == 0,
    {
        let last = self.prev_index + self.entries.len() as u64;
        if last == 0 {
            None
        } else {
            Some(last)
        }
    }

    /// Term of the entry at index `i`, per [`LogStore::spec_term_at`].
    pub fn term(&self, i: LogIndex) -> (r: Option<Term>)
        requires
            self.wf(),
        ensures
            r == self.spec_term_at(i as int),
    {
        if i == 0 {
            Some(0)
        } else if i == self.prev_index {
            Some(self.prev_term)
        } else if i > self.prev_index {
            let off = i - self.prev_index - 1;
            if off < self.entries.len() as u64 {
                Some(self.entries[off as usize].term)
            } else {
                None
            }
        } else {
            None
        }
    }

    /// The entry retained at index `i`, if any.
    pub fn entry(&self, i: LogIndex) -> (r: Option<&LogEntry>)
        requires
            self.wf(),
        ensures
            r matches Some(e) ==> self.has_entry(i as int) && e@ == self.spec_entry_at(i as int),
            r is None ==> !self.has_entry(i as int),
    {
        if i > self.prev_index {
            let off = i - self.prev_index - 1;
            if off < self.entries.len() as u64 {
                Some(&self.entries[off as usize])
            } else {
                None
            }
        } else {
            None
        }
    }

    /// Appends one entry; the caller guarantees the monotonic-index and
    /// monotonic-term preconditions.
    pub fn append(&mut self, e: LogEntry)
        requires
            old(self).wf(),
            e.index == old(self).spec_last_index() + 1,
            e.term >= old(self).spec_last_term(),
        ensures
            final(self).wf(),
            final(self)@ == old(self)@.push(e@),
            final(self).prev_index == old(self).prev_index,
            final(self).prev_term == old(self).prev_term,
            final(self).flushed == old(self).flushed,
            final(self).spec_last_index() == old(self).spec_last_index() + 1,
            final(self).spec_last_term() == e.term,
    {
        proof {
            assert(e@.term == e.term);
        }
        self.entries.push(e);
        proof {
            assert(final(self)@ =~= old(self)@.push(e@));
        }
    }

    /// Appends `entries[start..]` in order; the slice continues the log
    /// contiguously and with non-decreasing terms.
    #[verifier::rlimit(100)]
    pub fn append_suffix(&mut self, entries: &Vec<LogEntry>, start: usize)
        requires
            old(self).wf(),
            start < entries@.len(),
            forall|j: int|
                start <= j < entries@.len() ==> (#[trigger] entries@[j]).index == old(self).spec_last_index() + 1 + (j - start),
            forall|i: int, j: int|
                start <= i <= j < entries@.len() ==> (#[trigger] entries@[i]).term <= (
                #[trigger] entries@[j]).term,
            entries@[start as int].term >= old(self).spec_last_term(),
        ensures
            final(self).wf(),
            final(self).prev_index == old(self).prev_index,
            final(self).prev_term == old(self).prev_term,
            final(self).flushed == old(self).flushed,
            final(self).spec_last_index() == entries@.last().index,
            final(self).spec_last_term() == entries@.last().term,
            forall|j: int|
                start <= j < entries@.len() ==> final(self).has_entry(
                    (#[trigger] entries@[j]).index as int,
                ) && final(self).spec_entry_at(entries@[j].index as int) == entries@[j]@ && final(self).spec_term_at(entries@[j].index as int) == Some(entries@[j].term),
            forall|i: int|
                old(self).has_entry(i) ==> final(self).has_entry(i) && final(self).spec_entry_at(
                    i,
                ) == old(self).spec_entry_at(i) && final(self).spec_term_at(i) == old(self).spec_term_at(i),
    {
        let mut j = start;
        while j < entries.len()
            invariant
                self.wf(),
                start <= j <= entries@.len(),
                start < entries@.len(),
                self.prev_index == old(self).prev_index,
                self.prev_term == old(self).prev_term,
                self.flushed == old(self).flushed,
                self.spec_last_index() == old(self).spec_last_index() + (j - start),
                j == start ==> *self == *old(self),
                j > start ==> self.spec_last_term() == entries@[j - 1].term,
                forall|jj: int|
                    start <= jj < entries@.len() ==> (#[trigger] entries@[jj]).index == old(self).spec_last_index() + 1 + (jj - start),
                forall|i: int, jj: int|
                    start <= i <= jj < entries@.len() ==> (#[trigger] entries@[i]).term <= (
                    #[trigger] entries@[jj]).term,
                entries@[start as int].term >= old(self).spec_last_term(),
                forall|k: int|
                    start <= k < j ==> self.has_entry((#[trigger] entries@[k]).index as int)
                        && self.spec_entry_at(entries@[k].index as int) == entries@[k]@
                        && self.spec_term_at(entries@[k].index as int) == Some(entries@[k].term),
                forall|i: int|
                    old(self).has_entry(i) ==> self.has_entry(i) && self.spec_entry_at(i) == old(self).spec_entry_at(i) && self.spec_term_at(i) == old(self).spec_term_at(i),
            decreases entries@.len() - j,
        {
            let e = crate::protos::clone_entry(&entries[j]);
            self.append(e);
            j = j + 1;
        }
    }

    /// Removes every entry with index `from` or above; the durability marker
    /// is pulled back with the truncation.
    pub fn truncate_suffix(&mut self, from: LogIndex)
        requires
            old(self).wf(),
            from > old(self).prev_index,
        ensures
            final(self).wf(),
            final(self).prev_index == old(self).prev_index,
            final(self).prev_term == old(self).prev_term,
            final(self).spec_last_index() == if from - 1 <= old(self).spec_last_index() {
                from - 1 as int
            } else {
                old(self).spec_last_index()
            },
            final(self)@ == old(self)@.take(
                if from - old(self).prev_index - 1 <= old(self)@.len() {
                    from - old(self).prev_index - 1
                } else {
                    old(self)@.len() as int
                },
            ),
            forall|i: int|
                0 < i < from ==> final(self).spec_term_at(i) == old(self).spec_term_at(i),
            final(self).flushed <= old(self).flushed,
    {
        let keep = from - self.prev_index - 1;
        if keep < self.entries.len() as u64 {
            self.entries.truncate(keep as usize);
        }
        if self.flushed >= from {
            self.flushed = from - 1;
        }
        proof {
            assert(final(self)@ =~= final(self).entries@.map(|k: int, e: LogEntry| e@));
            if from - old(self).prev_index - 1 <= old(self)@.len() {
                assert(final(self)@ =~= old(self)@.take(from - old(self).prev_index - 1));
            } else {
                assert(final(self)@ =~= old(self)@.take(old(self)@.len() as int));
            }
        }
    }

    /// Highest index durably flushed on this server; nothing when none is.
    pub fn match_index(&self) -> (r: Option<LogIndex>)
        ensures
            r matches Some(i) ==> i == self.flushed && i > 0,
            r is None ==> self.flushed == 0,
    {
        if self.flushed == 0 {
            None
        } else {
            Some(self.flushed)
        }
    }

    /// Called by the host as entries reach durable storage.
    pub fn set_match_index(&mut self, i: LogIndex)
        requires
            old(self).wf(),
            i <= old(self).spec_last_index(),
        ensures
            final(self).wf(),
            *final(self) == (LogStore { flushed: i, ..*old(self) }),
    {
        self.flushed = i;
    }

    /// Terms never decrease along the log: the term at a lower defined index
    /// is at most the term at a higher defined index.
    pub proof fn lemma_term_monotonic(&self, i: int, j: int)
        requires
            self.wf(),
            0 <= i <= j,
            self.spec_term_at(i) is Some,
            self.spec_term_at(j) is Some,
        ensures
            self.spec_term_at(i).unwrap() <= self.spec_term_at(j).unwrap(),
    {
    }
}

} // verus!
