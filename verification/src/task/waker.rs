use vstd::prelude::*;
use crate::task::TaskId;

verus! {

/// What a wake signal holds: nothing, one notification that found no task
/// waiting, or the one task that waits to be resumed.
#[derive(Debug, Clone, Copy, PartialEq, Eq, Structural)]
pub enum SignalState {
    Idle,
    Pending,
    Waiting(TaskId),
}

/// The signal after a notification, and the task to resume. A waiting task is
/// resumed and leaves the signal; with no task waiting the notification is
/// kept as pending, and any further one adds nothing to it.
pub open spec fn notify_spec(s: SignalState) -> (SignalState, Option<TaskId>) {
    match s {
        SignalState::Waiting(task) => (SignalState::Idle, Some(task)),
        _ => (SignalState::Pending, None),
    }
}

/// The signal after `task` asks to be resumed by the next notification, and
/// the task to resume at once. A pending notification is used up and resumes
/// the task at once; otherwise the task waits, in place of any task that
/// waited before.
pub open spec fn register_spec(s: SignalState, task: TaskId) -> (SignalState, Option<TaskId>) {
    match s {
        SignalState::Pending => (SignalState::Idle, Some(task)),
        _ => (SignalState::Waiting(task), None),
    }
}

/// The signal after the waiting task is withdrawn, and that task. A pending
/// notification stays.
pub open spec fn take_spec(s: SignalState) -> (SignalState, Option<TaskId>) {
    match s {
        SignalState::Waiting(task) => (SignalState::Idle, Some(task)),
        _ => (s, None),
    }
}

/// A single-slot notification cell: at most one task waits on it, and
/// notifications are not counted.
pub struct WakeSignal {
    state: SignalState,
}

impl View for WakeSignal {
    type V = SignalState;

    closed spec fn view(&self) -> SignalState {
        self.state
    }
}

impl WakeSignal {
    pub fn new() -> (signal: Self)
        ensures
            signal@ == SignalState::Idle,
    {
        WakeSignal { state: SignalState::Idle }
    }

    /// Records that `task` is to be resumed by the next notification. Returns
    /// the task if a notification was pending: it is to be resumed at once.
    pub fn register(&mut self, task: TaskId) -> (resume: Option<TaskId>)
        ensures
            (final(self)@, resume) == register_spec(old(self)@, task),
    {
        match self.state {
            SignalState::Pending => {
                self.state = SignalState::Idle;
                Some(task)
            },
            _ => {
                self.state = SignalState::Waiting(task);
                None
            },
        }
    }

    /// Notifies the signal. Returns the task that waited, which is to be
    /// resumed.
    pub fn notify(&mut self) -> (resume: Option<TaskId>)
        ensures
            (final(self)@, resume) == notify_spec(old(self)@),
    {
        match self.state {
            SignalState::Waiting(task) => {
                self.state = SignalState::Idle;
                Some(task)
            },
            _ => {
                self.state = SignalState::Pending;
                None
            },
        }
    }

    /// Withdraws the waiting task, if there is one, and returns it.
    pub fn take(&mut self) -> (withdrawn: Option<TaskId>)
        ensures
            (final(self)@, withdrawn) == take_spec(old(self)@),
    {
        match self.state {
            SignalState::Waiting(task) => {
                self.state = SignalState::Idle;
                Some(task)
            },
            _ => None,
        }
    }
}

/// The signal after `n` notifications in a row.
pub open spec fn notify_times(s: SignalState, n: nat) -> SignalState
    decreases n,
{
    if n == 0 {
        s
    } else {
        notify_spec(notify_times(s, (n - 1) as nat)).0
    }
}

/// How many tasks `n` notifications in a row resume.
pub open spec fn resumed_by(s: SignalState, n: nat) -> nat
    decreases n,
{
    if n == 0 {
        0
    } else {
        resumed_by(s, (n - 1) as nat) + if notify_spec(notify_times(s, (n - 1) as nat)).1 is Some {
            1nat
        } else {
            0nat
        }
    }
}

/// Notifications are not counted. Any number of them in a row resumes the
/// task that waited once, and no task if none waited. From the second one on
/// they leave one pending notification behind, which resumes the next task
/// that registers, once.
pub proof fn lemma_notify_coalesces(s: SignalState, n: nat, next: TaskId)
    requires
        n >= 1,
    ensures
        resumed_by(s, n) == (if s is Waiting { 1nat } else { 0nat }),
        n >= 2 || !(s is Waiting) ==> notify_times(s, n) == SignalState::Pending,
        n == 1 && s is Waiting ==> notify_times(s, n) == SignalState::Idle,
        notify_spec(SignalState::Pending) == (SignalState::Pending, None::<TaskId>),
        register_spec(SignalState::Pending, next) == (SignalState::Idle, Some(next)),
    decreases n,
{
    if n > 1 {
        lemma_notify_coalesces(s, (n - 1) as nat, next);
    } else {
        assert(notify_times(s, 0) == s);
        assert(resumed_by(s, 0) == 0);
    }
}

} // verus!
