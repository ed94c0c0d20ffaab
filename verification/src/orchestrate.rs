use vstd::prelude::*;

verus! {

/// How one collection's task ended: completed, or abandoned on its own
/// error without touching any sibling.
pub enum TaskOutcome {
    Completed,
    Abandoned,
}

/// The aggregate progress counter shared by all workers: collections
/// finished (completed or abandoned) out of the total scheduled. The
/// caller guards it with its display's lock; the counter itself only
/// promises how each update moves it.
pub struct RunProgress {
    /// Collections scheduled for this run.
    pub total: u64,
    /// Collections finished so far.
    pub finished: u64,
}

impl RunProgress {
    pub open spec fn wf(self) -> bool {
        self.finished <= self.total
    }

    /// Start a run over `total` collections.
    pub fn new(total: u64) -> (r: RunProgress)
        ensures
            r.wf(),
            r.total == total,
            r.finished == 0,
    {
        RunProgress { total, finished: 0 }
    }

    /// Record one finished collection, whatever its outcome: a failed
    /// collection still counts as finished, so one failure never stalls
    /// the aggregate display.
    pub fn record_finished(&mut self)
        requires
            old(self).wf(),
            old(self).finished < old(self).total,
        ensures
            final(self).wf(),
            final(self).total == old(self).total,
            final(self).finished == old(self).finished + 1,
    {
        self.finished = self.finished + 1;
    }

    /// Whether every scheduled collection finished.
    pub fn all_finished(&self) -> (r: bool)
        ensures
            r == (self.finished == self.total),
    {
        self.finished == self.total
    }
}

/// How many of the outcomes completed.
pub open spec fn spec_completed_count(outcomes: Seq<TaskOutcome>) -> int {
    outcomes.filter(|o: TaskOutcome| o is Completed).len() as int
}

/// Tally a run's per-collection outcomes: how many completed and how many
/// were abandoned. The run as a whole succeeds whenever it finishes;
/// abandoned collections are visible only here and in the log.
pub fn summarize(outcomes: &Vec<TaskOutcome>) -> (r: (usize, usize))
    ensures
        r.0 == spec_completed_count(outcomes@),
        r.0 + r.1 == outcomes@.len(),
{
    let ghost pred = |o: TaskOutcome| o is Completed;
    let mut completed: usize = 0;
    let mut i: usize = 0;
    proof {
        assert(outcomes@.take(0) =~= Seq::<TaskOutcome>::empty());
    }
    while i < outcomes.len()
        invariant
            i <= outcomes@.len(),
            completed == outcomes@.take(i as int).filter(|o: TaskOutcome| o is Completed).len(),
            completed <= i,
        decreases outcomes@.len() - i,
    {
        proof {
            let taken = outcomes@.take(i + 1);
            assert(taken.drop_last() =~= outcomes@.take(i as int));
            assert(taken.last() == outcomes@[i as int]);
            reveal_with_fuel(Seq::filter, 2);
        }
        let is_done = match outcomes[i] {
            TaskOutcome::Completed => true,
            TaskOutcome::Abandoned => false,
        };
        if is_done {
            completed = completed + 1;
        }
        i = i + 1;
    }
    proof {
        assert(outcomes@.take(outcomes@.len() as int) =~= outcomes@);
    }
    (completed, outcomes.len() - completed)
}

} // verus!
