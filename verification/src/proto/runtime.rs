//! The cooperative run loop's decision core; the printing loop around it is
//! the host program's.

use vstd::prelude::*;
use crate::proto::scheduler::{RoundRobinScheduler, Scheduler};
use crate::proto::task::{TaskManager, TaskState};

verus! {

/// A scheduler with its task table.
pub struct Runtime {
    pub scheduler: RoundRobinScheduler,
    pub task_manager: TaskManager,
}

impl Runtime {
    pub fn new(scheduler: RoundRobinScheduler, task_manager: TaskManager) -> (r: Self)
        ensures
            r.task_manager == task_manager,
    {
        Runtime { scheduler, task_manager }
    }

    /// One tick: picks the first ready task and leaves it ready again (the
    /// study's stand-in for running it); reports which task ran, or that the
    /// system is idle.
    pub fn step(&mut self) -> (r: Option<usize>)
        ensures
            r is None ==> forall|i: int| 0 <= i < old(self).task_manager.tasks@.len() ==> !((
            #[trigger] old(self).task_manager.tasks@[i]).state is Ready),
            r matches Some(i) ==> i < old(self).task_manager.tasks@.len() && old(self).task_manager.tasks@[i as int].state is Ready,
    {
        let selected = self.scheduler.select(&self.task_manager.tasks);
        match selected {
            Some(i) => Some(i),
            None => None,
        }
    }
}

} // verus!
