//! Task selection: schedulers name the next runnable task by index.

use vstd::prelude::*;
use crate::proto::task::{Task, TaskState};

verus! {

/// How a scheduler picks the next task to run.
pub trait Scheduler {
    /// Some index of a ready task, or none when nothing is runnable.
    fn select(&self, tasks: &Vec<Task>) -> (r: Option<usize>)
        ensures
            r matches Some(i) ==> i < tasks@.len() && tasks@[i as int].state is Ready,
            r is None ==> forall|i: int| 0 <= i < tasks@.len() ==> !((#[trigger] tasks@[i]).state
                is Ready),
    ;
}

/// Picks the first ready task, in table order.
pub struct RoundRobinScheduler;

impl RoundRobinScheduler {
    pub fn new() -> (r: Self) {
        RoundRobinScheduler
    }
}

impl Scheduler for RoundRobinScheduler {
    fn select(&self, tasks: &Vec<Task>) -> (r: Option<usize>)
    {
        let n = tasks.len();
        let mut i: usize = 0;
        while i < n
            invariant
                n == tasks@.len(),
                i <= n,
                forall|j: int| 0 <= j < i ==> !((#[trigger] tasks@[j]).state is Ready),
            decreases n - i,
        {
            if matches!(tasks[i].state, TaskState::Ready) {
                return Some(i);
            }
            i = i + 1;
        }
        None
    }
}

} // verus!
