use crate::worker::Worker;
use std::rc::Rc;
use vstd::prelude::*;

verus! {

/// A population of identical children: how many there should be, and what each does.
pub struct WorkerGroup<W: Worker> {
    pub count: u32,
    pub worker: Rc<W>,
}

impl<W: Worker> WorkerGroup<W> {
    pub fn new(count: u32, worker: Rc<W>) -> (r: Self)
        ensures
            r.count == count,
            r.worker == worker,
    {
        Self { count: count, worker: worker }
    }

    pub fn set_worker(&mut self, worker: Rc<W>)
        ensures
            final(self).count == old(self).count,
            final(self).worker == worker,
    {
        self.worker = worker;
    }

    /// The child's side of a fork: the three operations of the worker, in order.
    /// The caller ends the process when this returns.
    pub fn run_child(&self) {
        self.worker.init();
        self.worker.run();
        self.worker.cleanup();
    }
}

} // verus!
