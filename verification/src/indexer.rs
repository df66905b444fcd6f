//! Coordination of indexing cycles: the guard that pauses map-task
//! submission while buckets are being merged, and the cycle counter that
//! decides when a flush cycle is due.

use vstd::prelude::*;

verus! {

/// Stands between the mapper and the indexer: raised while an indexing
/// cycle is in progress. The blocking wait sits with the caller that owns
/// the condition variable; this is the state it guards.
pub struct IndexGuard {
    pub indexing: bool,
}

impl IndexGuard {
    /// Whether a mapper task may be submitted now.
    pub open spec fn may_submit(self) -> bool {
        !self.indexing
    }

    /// Creates a lowered guard.
    pub fn new() -> (r: IndexGuard)
        ensures
            !r.indexing,
    {
        IndexGuard { indexing: false }
    }

    /// Raises the guard at the start of an indexing cycle.
    pub fn start_indexing(&mut self)
        ensures
            final(self).indexing,
    {
        self.indexing = true;
    }

    /// Lowers the guard when the cycle's merges have all retired.
    pub fn finish_indexing(&mut self)
        ensures
            !final(self).indexing,
    {
        self.indexing = false;
    }

    /// Returns only while no indexing cycle is in progress; the caller's
    /// blocking wrapper waits on the condition variable until that holds.
    pub fn wait_while_indexing(&self)
        requires
            self.may_submit(),
    {
    }
}

/// Law: while an indexing cycle is in progress, the guard admits no task
/// submission; already-running tasks are unaffected, only submission
/// pauses.
pub proof fn lemma_guard_excludes_submission(g: IndexGuard)
    ensures
        g.indexing ==> !g.may_submit(),
        g.may_submit() ==> !g.indexing,
{
}

/// Counts map batches and decides when an indexing cycle is due.
pub struct IndexerCycle {
    pub map_iterations: usize,
    pub index_every: usize,
}

impl IndexerCycle {
    /// The counter stays below the cycle length.
    pub open spec fn wf(self) -> bool {
        &&& self.index_every >= 1
        &&& self.map_iterations < self.index_every
    }

    /// Starts counting batches toward cycles of the given length.
    pub fn new(index_every: usize) -> (r: IndexerCycle)
        requires
            index_every >= 1,
        ensures
            r.wf(),
            r.map_iterations == 0,
            r.index_every == index_every,
    {
        IndexerCycle { map_iterations: 0, index_every }
    }

    /// Records one received batch; true exactly when the count reaches the
    /// cycle length, which resets the counter.
    pub fn record_batch(&mut self) -> (r: bool)
        requires
            old(self).wf(),
        ensures
            final(self).wf(),
            final(self).index_every == old(self).index_every,
            r <==> old(self).map_iterations + 1 >= old(self).index_every,
            r ==> final(self).map_iterations == 0,
            !r ==> final(self).map_iterations == old(self).map_iterations + 1,
    {
        let next = self.map_iterations + 1;
        if next >= self.index_every {
            self.map_iterations = 0;
            true
        } else {
            self.map_iterations = next;
            false
        }
    }
}

} // verus!
