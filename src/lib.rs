use vstd::prelude::*;

pub mod bandit;
pub mod dispatch;

verus! {

/// A long-lived execution context of the pool, known by its index.
pub struct Worker {
    pub id: usize,
}

impl Worker {
    pub fn new(id: usize) -> (r: Worker)
        ensures
            r.id == id,
    {
        Worker { id }
    }
}

} // verus!
