//! The FIFO scheduler: a ready queue of task ids with strict queue order.
//! `add` appends at the tail, `fetch` pops the head; no priority is consulted.

use vstd::prelude::*;

verus! {

/// A FIFO ready queue of runnable task ids, with a running count of its
/// members.
#[verifier::ext_equal]
pub struct TaskManager {
    pub ready_queue: Vec<usize>,
    pub sum: usize,
}

impl TaskManager {
    /// The count mirrors the queue length.
    pub open spec fn wf(self) -> bool {
        self.sum == self.ready_queue@.len()
    }

    /// Create an empty ready queue.
    pub fn new() -> (r: TaskManager)
        ensures
            r.wf(),
            r.ready_queue@ =~= Seq::<usize>::empty(),
    {
        TaskManager { ready_queue: Vec::new(), sum: 0 }
    }

    /// Append a runnable task at the tail of the queue.
    pub fn add(&mut self, task: usize)
        requires
            old(self).wf(),
        ensures
            final(self).wf(),
            final(self).ready_queue@ == old(self).ready_queue@.push(task),
    {
        self.ready_queue.push(task);
        self.sum = self.ready_queue.len();
    }

    /// Pop the head of the queue: tasks leave in exactly the order they were
    /// added, or `None` on an empty queue.
    pub fn fetch(&mut self) -> (r: Option<usize>)
        requires
            old(self).wf(),
        ensures
            final(self).wf(),
            old(self).ready_queue@.len() == 0 ==> r is None && final(self).ready_queue@ == old(
                self,
            ).ready_queue@,
            old(self).ready_queue@.len() > 0 ==> r == Option::Some(old(self).ready_queue@[0])
                && final(self).ready_queue@ == old(self).ready_queue@.drop_first(),
    {
        if self.sum != 0 {
            self.sum = self.sum - 1;
        }
        if self.ready_queue.len() == 0 {
            None
        } else {
            let head = self.ready_queue.remove(0);
            proof {
                assert(self.ready_queue@ =~= old(self).ready_queue@.drop_first());
            }
            Some(head)
        }
    }

    /// How many tasks wait in the queue.
    pub fn get_task_sum_in_ready(&self) -> (r: usize)
        ensures
            r == self.sum,
            self.wf() ==> r == self.ready_queue@.len(),
    {
        self.sum
    }
}

} // verus!
