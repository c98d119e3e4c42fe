use vstd::prelude::*;

pub mod executor;
pub mod keyboard;
pub mod waker;

verus! {

/// The identity of a task. No two tasks that are registered at the same time
/// share one.
#[derive(Debug, Clone, Copy, PartialEq, Eq, PartialOrd, Ord, Hash, Structural)]
pub struct TaskId(pub u64);

/// The source of task identities: it hands out 0, 1, 2, ... and so never the
/// same identity twice.
pub struct TaskIdSource {
    next: u64,
}

impl TaskIdSource {
    /// How many identities have been handed out.
    pub closed spec fn issued(&self) -> nat {
        self.next as nat
    }

    pub fn new() -> (source: Self)
        ensures
            source.issued() == 0,
    {
        TaskIdSource { next: 0 }
    }

    /// The next identity: the number of identities handed out before it.
    /// `None` once `u64::MAX` of them are out.
    pub fn next_id(&mut self) -> (id: Option<TaskId>)
        ensures
            match id {
                Some(id) => id.0 == old(self).issued() && final(self).issued() == old(
                    self,
                ).issued() + 1,
                None => old(self).issued() == u64::MAX && final(self).issued() == old(
                    self,
                ).issued(),
            },
    {
        if self.next == u64::MAX {
            None
        } else {
            let id = TaskId(self.next);
            self.next = self.next + 1;
            Some(id)
        }
    }
}

/// A unit of work that runs until it suspends itself or completes, with its
/// identity. The executor never looks into `body`: whoever spawns the task
/// chooses what it is.
pub struct Task<B> {
    pub id: TaskId,
    pub body: B,
}

impl<B> Task<B> {
    pub fn new(id: TaskId, body: B) -> (task: Self)
        ensures
            task.id == id,
            task.body == body,
    {
        Task { id, body }
    }
}

} // verus!
