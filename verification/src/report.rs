use vstd::prelude::*;

use crate::execution::CompletedTask;
use crate::execution::Status;

verus! {

/// Running counts of completed tasks, the summary a formatter prints
/// at the end of a run.
pub struct TestStats {
    pub total: usize,
    pub ok: usize,
    pub failed: usize,
    pub ignored: usize,
}

impl Default for TestStats {
    fn default() -> (s: TestStats)
        ensures
            s.total == 0 && s.ok == 0 && s.failed == 0 && s.ignored == 0,
    {
        TestStats { total: 0, ok: 0, failed: 0, ignored: 0 }
    }
}

impl TestStats {
    /// Counts one completed task: a success as ok, a skip as
    /// ignored, and everything else as failed.
    pub fn update(&mut self, task: &CompletedTask)
        requires
            old(self).total < usize::MAX,
            old(self).ok < usize::MAX,
            old(self).failed < usize::MAX,
            old(self).ignored < usize::MAX,
        ensures
            final(self).total == old(self).total + 1,
            final(self).ok == old(self).ok + (if task.status is Success {
                1int
            } else {
                0int
            }),
            final(self).failed == old(self).failed + (if task.status is Failure || task.status
                is Signaled || task.status is Timeout {
                1int
            } else {
                0int
            }),
            final(self).ignored == old(self).ignored + (if task.status is Skipped {
                1int
            } else {
                0int
            }),
    {
        self.total += 1;
        match task.status {
            Status::Success => {
                self.ok += 1;
            },
            Status::Failure(_) | Status::Signaled(_) | Status::Timeout => {
                self.failed += 1;
            },
            Status::Skipped(_) => {
                self.ignored += 1;
            },
        }
    }

    /// True when no completed task counted as a failure.
    pub fn ok(&self) -> (r: bool)
        ensures
            r == (self.failed == 0),
    {
        self.failed == 0
    }
}

} // verus!
