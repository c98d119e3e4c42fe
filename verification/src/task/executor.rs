use vstd::prelude::*;
use vstd::pervasive::unreached;
use std::collections::BTreeMap;
use crate::queue::HandoffQueue;
use crate::task::Task;
use crate::task::TaskId;

verus! {

/// The number of tasks that can be ready to run at one time.
pub const READY_QUEUE_CAPACITY: usize = 100;

/// Where a registered task stands, and where its body is: with the executor
/// while the task is ready to run or suspended, with whoever runs it
/// meanwhile. A task that runs remembers whether it was woken since it
/// started to run.
pub enum Slot<B> {
    Runnable { body: B },
    Running { woken: bool },
    Suspended { body: B },
}

/// The state of a registered task.
#[derive(Debug, Clone, Copy, PartialEq, Eq, Structural)]
pub enum TaskState {
    Runnable,
    Running,
    Suspended,
}

/// What the executor refuses.
#[derive(Debug, Clone, Copy, PartialEq, Eq, Structural)]
pub enum ExecutorError {
    /// A task with this identity is registered already.
    DuplicateTaskId,
    /// The ready queue is at capacity.
    ReadyQueueOverflow,
    /// The task is not one that the executor has handed out to be run.
    NotRunning,
}

/// What a wake did.
#[derive(Debug, Clone, Copy, PartialEq, Eq, Structural)]
pub enum Woken {
    /// The task was suspended and is now ready to run.
    Queued,
    /// The task runs: it becomes ready to run when it suspends itself.
    Deferred,
    /// The task was ready to run already.
    AlreadyQueued,
    /// No task with this identity is registered.
    Unknown,
}

/// What an executor holds: the registered tasks, by the number of their
/// identity, the resume triggers that are kept for them, the identities of the
/// tasks that are ready to run, the one to be run next first, and how many of
/// these are still to be run in the pass under way.
pub struct ExecutorView<B, W> {
    pub slots: Map<u64, Slot<B>>,
    pub triggers: Map<u64, W>,
    pub ready: Seq<u64>,
    pub pass_left: nat,
}

impl<B, W> ExecutorView<B, W> {
    /// A task with the number `id` is registered and ready to run.
    pub open spec fn is_runnable(self, id: u64) -> bool {
        self.slots.contains_key(id) && self.slots[id] is Runnable
    }

    /// A task with the number `id` is registered and handed out to be run.
    pub open spec fn is_running(self, id: u64) -> bool {
        self.slots.contains_key(id) && self.slots[id] is Running
    }

    /// The ready queue holds the tasks that are ready to run, each once, and
    /// no others; it is within its capacity, and the pass under way does not
    /// reach beyond it. A trigger is kept for registered tasks only.
    pub open spec fn wf(self) -> bool {
        &&& forall|id: u64| #[trigger] self.triggers.contains_key(id) ==> self.slots.contains_key(id)
        &&& self.ready.no_duplicates()
        &&& forall|i: int| 0 <= i < self.ready.len() ==> self.is_runnable(#[trigger] self.ready[i])
        &&& forall|id: u64| #[trigger] self.is_runnable(id) ==> self.ready.contains(id)
        &&& self.ready.len() <= READY_QUEUE_CAPACITY
        &&& self.pass_left <= self.ready.len()
    }

    /// The state of the task with the number `id`, if one is registered.
    pub open spec fn state(self, id: u64) -> Option<TaskState> {
        if self.slots.contains_key(id) {
            Some(
                match self.slots[id] {
                    Slot::Runnable { .. } => TaskState::Runnable,
                    Slot::Running { .. } => TaskState::Running,
                    Slot::Suspended { .. } => TaskState::Suspended,
                },
            )
        } else {
            None
        }
    }

    /// The tasks that the pass under way has still to run, in their order.
    pub open spec fn pass(self) -> Seq<u64> {
        self.ready.take(self.pass_left as int)
    }

    /// An executor without tasks.
    pub open spec fn empty() -> ExecutorView<B, W> {
        ExecutorView {
            slots: Map::empty(),
            triggers: Map::empty(),
            ready: Seq::empty(),
            pass_left: 0,
        }
    }
}

/// A new task is registered and is ready to run at once, behind the tasks
/// that are ready already. Refused, with nothing changed: a task whose
/// identity is registered, and any task while the ready queue is at capacity.
pub open spec fn spawn_spec<B, W>(v: ExecutorView<B, W>, task: Task<B>) -> (
    ExecutorView<B, W>,
    Result<(), ExecutorError>,
) {
    if v.slots.contains_key(task.id.0) {
        (v, Err(ExecutorError::DuplicateTaskId))
    } else if v.ready.len() >= READY_QUEUE_CAPACITY {
        (v, Err(ExecutorError::ReadyQueueOverflow))
    } else {
        (
            ExecutorView {
                slots: v.slots.insert(task.id.0, Slot::Runnable { body: task.body }),
                triggers: v.triggers,
                ready: v.ready.push(task.id.0),
                pass_left: v.pass_left,
            },
            Ok(()),
        )
    }
}

/// A pass begins: it is to run the tasks that are ready to run now.
pub open spec fn begin_pass_spec<B, W>(v: ExecutorView<B, W>) -> ExecutorView<B, W> {
    ExecutorView { slots: v.slots, triggers: v.triggers, ready: v.ready, pass_left: v.ready.len() }
}

/// The next task of the pass is handed out to be run: the one at the front of
/// the ready queue, with its body. Nothing is handed out once the pass has
/// run its tasks.
pub open spec fn next_ready_spec<B, W>(v: ExecutorView<B, W>) -> (ExecutorView<B, W>, Option<Task<B>>) {
    if v.pass_left > 0 && v.ready.len() > 0 && v.slots.contains_key(v.ready[0])
        && v.slots[v.ready[0]] is Runnable {
        let id = v.ready[0];
        (
            ExecutorView {
                slots: v.slots.insert(id, Slot::Running { woken: false }),
                triggers: v.triggers,
                ready: v.ready.skip(1),
                pass_left: (v.pass_left - 1) as nat,
            },
            Some(Task { id: TaskId(id), body: v.slots[id]->Runnable_body }),
        )
    } else {
        (v, None)
    }
}

/// A task is woken. A suspended task becomes ready to run, behind the tasks
/// that are ready already; if the ready queue is at capacity the wake is
/// refused and the task stays suspended. A task that runs notes the wake. A
/// task that is ready to run stays so, once in the queue.
pub open spec fn wake_spec<B, W>(v: ExecutorView<B, W>, id: TaskId) -> (
    ExecutorView<B, W>,
    Result<Woken, ExecutorError>,
) {
    if !v.slots.contains_key(id.0) {
        (v, Ok(Woken::Unknown))
    } else {
        match v.slots[id.0] {
            Slot::Runnable { .. } => (v, Ok(Woken::AlreadyQueued)),
            Slot::Running { .. } => (
                ExecutorView {
                    slots: v.slots.insert(id.0, Slot::Running { woken: true }),
                    triggers: v.triggers,
                    ready: v.ready,
                    pass_left: v.pass_left,
                },
                Ok(Woken::Deferred),
            ),
            Slot::Suspended { body } => {
                if v.ready.len() >= READY_QUEUE_CAPACITY {
                    (v, Err(ExecutorError::ReadyQueueOverflow))
                } else {
                    (
                        ExecutorView {
                            slots: v.slots.insert(id.0, Slot::Runnable { body }),
                            triggers: v.triggers,
                            ready: v.ready.push(id.0),
                            pass_left: v.pass_left,
                        },
                        Ok(Woken::Queued),
                    )
                }
            },
        }
    }
}

/// A task that was handed out has suspended itself and comes back. If it was
/// woken while it ran it is ready to run again, behind the tasks that are
/// ready already; else it is suspended. If it was woken and the ready queue
/// is at capacity, it is suspended and the overflow is reported. A task that
/// was not handed out is refused, with nothing changed.
pub open spec fn suspend_spec<B, W>(v: ExecutorView<B, W>, task: Task<B>) -> (
    ExecutorView<B, W>,
    Result<(), ExecutorError>,
) {
    let id = task.id.0;
    if v.is_running(id) {
        let woken = v.slots[id]->woken;
        if woken && v.ready.len() < READY_QUEUE_CAPACITY {
            (
                ExecutorView {
                    slots: v.slots.insert(id, Slot::Runnable { body: task.body }),
                    triggers: v.triggers,
                    ready: v.ready.push(id),
                    pass_left: v.pass_left,
                },
                Ok(()),
            )
        } else {
            (
                ExecutorView {
                    slots: v.slots.insert(id, Slot::Suspended { body: task.body }),
                    triggers: v.triggers,
                    ready: v.ready,
                    pass_left: v.pass_left,
                },
                if woken {
                    Err(ExecutorError::ReadyQueueOverflow)
                } else {
                    Ok(())
                },
            )
        }
    } else {
        (v, Err(ExecutorError::NotRunning))
    }
}

/// A task that was handed out has run to its end: it is no longer registered,
/// and its trigger is dropped. A task that was not handed out is refused, with
/// nothing changed.

pub open spec fn complete_spec<B, W>(v: ExecutorView<B, W>, task: Task<B>) -> (
    ExecutorView<B, W>,
    Result<(), ExecutorError>,
) {
    let id = task.id.0;
    if v.is_running(id) {
        (
            ExecutorView {
                slots: v.slots.remove(id),
                triggers: v.triggers.remove(id),
                ready: v.ready,
                pass_left: v.pass_left,
            },
            Ok(()),
        )
    } else {
        (v, Err(ExecutorError::NotRunning))
    }
}

/// A resume trigger is kept for a registered task that has none yet. For any
/// other task it is handed back, with nothing changed: a task keeps the
/// trigger that was made for it first.
pub open spec fn cache_trigger_spec<B, W>(v: ExecutorView<B, W>, id: TaskId, trigger: W) -> (
    ExecutorView<B, W>,
    Result<(), W>,
) {
    if v.slots.contains_key(id.0) && !v.triggers.contains_key(id.0) {
        (
            ExecutorView {
                slots: v.slots,
                triggers: v.triggers.insert(id.0, trigger),
                ready: v.ready,
                pass_left: v.pass_left,
            },
            Ok(()),
        )
    } else {
        (v, Err(trigger))
    }
}

/// Registering a task keeps the executor well-formed and the pass as it is.
pub proof fn lemma_spawn<B, W>(v: ExecutorView<B, W>, task: Task<B>)
    requires
        v.wf(),
    ensures
        spawn_spec(v, task).0.wf(),
        spawn_spec(v, task).0.pass() == v.pass(),
{
    let w = spawn_spec(v, task).0;
    let id = task.id.0;
    if spawn_spec(v, task).1 is Ok {
        lemma_push_ready(v, w, id);
    }
}

/// What putting the task `id`, which was not ready to run, behind the ready
/// queue keeps.
proof fn lemma_push_ready<B, W>(v: ExecutorView<B, W>, w: ExecutorView<B, W>, id: u64)
    requires
        v.wf(),
        !v.is_runnable(id),
        v.ready.len() < READY_QUEUE_CAPACITY,
        w.ready == v.ready.push(id),
        w.pass_left == v.pass_left,
        w.triggers == v.triggers,
        w.slots.dom() == v.slots.dom().insert(id),
        w.slots[id] is Runnable,
        forall|other: u64| other != id && v.slots.contains_key(other) ==> w.slots[other]
            == v.slots[other],
    ensures
        w.wf(),
        w.pass() == v.pass(),
{
    assert(!v.ready.contains(id)) by {
        if v.ready.contains(id) {
            let i = choose|i: int| 0 <= i < v.ready.len() && v.ready[i] == id;
            assert(v.is_runnable(v.ready[i]));
        }
    }
    assert forall|i: int, j: int| 0 <= i < w.ready.len() && 0 <= j < w.ready.len() && i != j implies w.ready[i]
        != w.ready[j] by {
        if i < v.ready.len() && j < v.ready.len() {
            assert(v.ready[i] != v.ready[j]);
        } else if i < v.ready.len() {
            assert(v.ready.contains(v.ready[i]));
        } else {
            assert(v.ready.contains(v.ready[j]));
        }
    }
    assert forall|i: int| 0 <= i < w.ready.len() implies w.is_runnable(#[trigger] w.ready[i]) by {
        if i < v.ready.len() {
            assert(v.is_runnable(v.ready[i]));
            assert(v.ready.contains(v.ready[i]));
        }
    }
    assert forall|other: u64| #[trigger] w.is_runnable(other) implies w.ready.contains(other) by {
        if other == id {
            assert(w.ready[v.ready.len() as int] == id);
        } else {
            assert(v.is_runnable(other));
            let i = choose|i: int| 0 <= i < v.ready.len() && v.ready[i] == other;
            assert(w.ready[i] == other);
        }
    }
    assert(w.pass() =~= v.pass());
}

/// What a change to a task that is not ready to run, before or after, keeps.
proof fn lemma_change_unready<B, W>(v: ExecutorView<B, W>, w: ExecutorView<B, W>, id: u64)
    requires
        v.wf(),
        !v.is_runnable(id),
        !w.is_runnable(id),
        w.ready == v.ready,
        w.pass_left == v.pass_left,
        forall|other: u64| #[trigger]
            w.triggers.contains_key(other) ==> v.triggers.contains_key(other)
                && w.slots.contains_key(other),
        forall|other: u64|
            other != id ==> (w.slots.contains_key(other) == v.slots.contains_key(other)),
        forall|other: u64| other != id && v.slots.contains_key(other) ==> w.slots[other]
            == v.slots[other],
    ensures
        w.wf(),
        w.pass() == v.pass(),
{
    assert forall|i: int| 0 <= i < w.ready.len() implies w.is_runnable(#[trigger] w.ready[i]) by {
        assert(v.is_runnable(v.ready[i]));
    }
    assert forall|other: u64| #[trigger] w.is_runnable(other) implies w.ready.contains(other) by {
        assert(v.is_runnable(other));
    }
}

/// Beginning a pass keeps the executor well-formed; the pass is then to run
/// what is ready to run.
pub proof fn lemma_begin_pass<B, W>(v: ExecutorView<B, W>)
    requires
        v.wf(),
    ensures
        begin_pass_spec(v).wf(),
        begin_pass_spec(v).pass() == v.ready,
{
    let w = begin_pass_spec(v);
    assert forall|i: int| 0 <= i < w.ready.len() implies w.is_runnable(#[trigger] w.ready[i]) by {
        assert(v.is_runnable(v.ready[i]));
    }
    assert forall|other: u64| #[trigger] w.is_runnable(other) implies w.ready.contains(other) by {
        assert(v.is_runnable(other));
    }
    assert(w.pass() =~= v.ready);
}

/// Handing out the next task keeps the executor well-formed. The task handed
/// out is the first that the pass had still to run, and the pass goes on with
/// the others; nothing is handed out only when the pass has run its tasks.
pub proof fn lemma_next_ready<B, W>(v: ExecutorView<B, W>)
    requires
        v.wf(),
    ensures
        next_ready_spec(v).0.wf(),
        match next_ready_spec(v).1 {
            Some(task) => {
                &&& v.pass().len() > 0
                &&& task.id.0 == v.pass()[0]
                &&& v.slots[task.id.0] == (Slot::Runnable { body: task.body })
                &&& next_ready_spec(v).0.pass() == v.pass().skip(1)
                &&& next_ready_spec(v).0.is_running(task.id.0)
            },
            None => v.pass().len() == 0 && next_ready_spec(v).0 == v,
        },
{
    let w = next_ready_spec(v).0;
    if v.pass_left > 0 {
        let id = v.ready[0];
        assert(v.is_runnable(v.ready[0]));
        assert forall|i: int, j: int| 0 <= i < w.ready.len() && 0 <= j < w.ready.len() && i != j implies w.ready[i]
            != w.ready[j] by {
            assert(v.ready[i + 1] != v.ready[j + 1]);
        }
        assert forall|i: int| 0 <= i < w.ready.len() implies w.is_runnable(#[trigger] w.ready[i]) by {
            assert(v.is_runnable(v.ready[i + 1]));
            assert(v.ready[i + 1] != v.ready[0]);
        }
        assert forall|other: u64| #[trigger] w.is_runnable(other) implies w.ready.contains(other) by {
            assert(v.is_runnable(other));
            let i = choose|i: int| 0 <= i < v.ready.len() && v.ready[i] == other;
            assert(w.ready[i - 1] == other);
        }
        assert(w.pass() =~= v.pass().skip(1));
    } else {
        assert(v.pass() =~= Seq::<u64>::empty());
    }
}

/// A wake keeps the executor well-formed and the pass as it is.
pub proof fn lemma_wake<B, W>(v: ExecutorView<B, W>, id: TaskId)
    requires
        v.wf(),
    ensures
        wake_spec(v, id).0.wf(),
        wake_spec(v, id).0.pass() == v.pass(),
{
    let w = wake_spec(v, id).0;
    if v.slots.contains_key(id.0) {
        match v.slots[id.0] {
            Slot::Runnable { .. } => {},
            Slot::Running { .. } => {
                lemma_change_unready(v, w, id.0);
            },
            Slot::Suspended { body } => {
                if v.ready.len() < READY_QUEUE_CAPACITY {
                    assert(w.slots.dom() =~= v.slots.dom().insert(id.0));
                    lemma_push_ready(v, w, id.0);
                }
            },
        }
    }
}

/// Taking back a task that has suspended itself keeps the executor
/// well-formed and the pass as it is.
pub proof fn lemma_suspend<B, W>(v: ExecutorView<B, W>, task: Task<B>)
    requires
        v.wf(),
    ensures
        suspend_spec(v, task).0.wf(),
        suspend_spec(v, task).0.pass() == v.pass(),
{
    let w = suspend_spec(v, task).0;
    let id = task.id.0;
    if v.slots.contains_key(id) && v.slots[id] is Running {
        if v.slots[id]->woken && v.ready.len() < READY_QUEUE_CAPACITY {
            assert(w.slots.dom() =~= v.slots.dom().insert(id));
            lemma_push_ready(v, w, id);
        } else {
            lemma_change_unready(v, w, id);
        }
    }
}

/// Taking back a task that has run to its end keeps the executor well-formed
/// and the pass as it is.
pub proof fn lemma_complete<B, W>(v: ExecutorView<B, W>, task: Task<B>)
    requires
        v.wf(),
    ensures
        complete_spec(v, task).0.wf(),
        complete_spec(v, task).0.pass() == v.pass(),
{
    let w = complete_spec(v, task).0;
    if v.is_running(task.id.0) {
        lemma_change_unready(v, w, task.id.0);
    }
}


/// A cooperative executor. It owns the registered tasks and decides which of
/// them is run next; it does not run them. Whoever drives it begins a pass,
/// takes the tasks of the pass one by one with `next_ready`, runs each until
/// it suspends itself or completes, and hands it back with `suspend` or
/// `complete`. Wakes may come in at any point in between.
pub struct Executor<B, W> {
    tasks: BTreeMap<u64, Slot<B>>,
    task_queue: HandoffQueue,
    waker_cache: BTreeMap<u64, W>,
    pass_left: usize,
}

impl<B, W> View for Executor<B, W> {
    type V = ExecutorView<B, W>;

    closed spec fn view(&self) -> ExecutorView<B, W> {
        ExecutorView {
            slots: self.tasks@,
            triggers: self.waker_cache@,
            ready: self.task_queue@,
            pass_left: self.pass_left as nat,
        }
    }
}

impl<B, W> Executor<B, W> {
    /// The ready queue is sound and has the capacity that it is made with.
    pub closed spec fn inv(&self) -> bool {
        self.task_queue.wf() && self.task_queue.spec_capacity() == READY_QUEUE_CAPACITY
    }

    pub open spec fn wf(&self) -> bool {
        self.inv() && self@.wf()
    }

    /// An executor without tasks.
    pub fn new() -> (executor: Self)
        ensures
            executor.wf(),
            executor@ == ExecutorView::<B, W>::empty(),
    {
        Executor {
            tasks: BTreeMap::new(),
            task_queue: HandoffQueue::new(READY_QUEUE_CAPACITY),
            waker_cache: BTreeMap::new(),
            pass_left: 0,
        }
    }

    /// Registers `task` and makes it ready to run. A task whose identity is
    /// registered already is refused, and the registered one stays as it is.
    pub fn spawn(&mut self, task: Task<B>) -> (spawned: Result<(), ExecutorError>)
        requires
            old(self).wf(),
        ensures
            final(self).wf(),
            (final(self)@, spawned) == spawn_spec(old(self)@, task),
    {
        proof {
            lemma_spawn(self@, task);
        }
        let id = task.id.0;
        if self.tasks.contains_key(&id) {
            return Err(ExecutorError::DuplicateTaskId);
        }
        match self.task_queue.push(id) {
            Ok(()) => {
                self.tasks.insert(id, Slot::Runnable { body: task.body });
                Ok(())
            },
            Err(_) => Err(ExecutorError::ReadyQueueOverflow),
        }
    }

    /// Begins a pass over the tasks that are ready to run now. Tasks that
    /// become ready during the pass wait for the next one.
    pub fn begin_pass(&mut self)
        requires
            old(self).wf(),
        ensures
            final(self).wf(),
            final(self)@ == begin_pass_spec(old(self)@),
    {
        proof {
            lemma_begin_pass(self@);
        }
        self.pass_left = self.task_queue.len();
    }

    /// Hands out the next task of the pass, to be run. `None` when the pass
    /// has run its tasks.
    pub fn next_ready(&mut self) -> (next: Option<Task<B>>)
        requires
            old(self).wf(),
        ensures
            final(self).wf(),
            (final(self)@, next) == next_ready_spec(old(self)@),
    {
        proof {
            lemma_next_ready(self@);
        }
        if self.pass_left == 0 {
            return None;
        }
        assert(self@.is_runnable(self@.ready[0]));
        let id = match self.task_queue.pop() {
            Ok(id) => id,
            Err(_) => unreached(),
        };
        self.pass_left = self.pass_left - 1;
        match self.tasks.remove(&id) {
            Some(Slot::Runnable { body }) => {
                self.tasks.insert(id, Slot::Running { woken: false });
                assert(self@.slots =~= old(self)@.slots.insert(id, Slot::Running { woken: false }));
                Some(Task { id: TaskId(id), body })
            },
            _ => unreached(),
        }
    }

    /// Wakes the task `id`: see `wake_spec`. A wake that finds the ready queue
    /// at capacity is refused, and the task stays suspended.
    pub fn wake(&mut self, id: TaskId) -> (woken: Result<Woken, ExecutorError>)
        requires
            old(self).wf(),
        ensures
            final(self).wf(),
            (final(self)@, woken) == wake_spec(old(self)@, id),
    {
        proof {
            lemma_wake(self@, id);
        }
        let key = id.0;
        match self.tasks.remove(&key) {
            None => {
                assert(self@.slots =~= old(self)@.slots);
                Ok(Woken::Unknown)
            },
            Some(Slot::Runnable { body }) => {
                self.tasks.insert(key, Slot::Runnable { body });
                assert(self@.slots =~= old(self)@.slots);
                Ok(Woken::AlreadyQueued)
            },
            Some(Slot::Running { woken: _ }) => {
                self.tasks.insert(key, Slot::Running { woken: true });
                assert(self@.slots =~= old(self)@.slots.insert(key, Slot::Running { woken: true }));
                Ok(Woken::Deferred)
            },
            Some(Slot::Suspended { body }) => {
                match self.task_queue.push(key) {
                    Ok(()) => {
                        self.tasks.insert(key, Slot::Runnable { body });
                        assert(self@.slots =~= old(self)@.slots.insert(
                            key,
                            Slot::Runnable { body },
                        ));
                        Ok(Woken::Queued)
                    },
                    Err(_) => {
                        self.tasks.insert(key, Slot::Suspended { body });
                        assert(self@.slots =~= old(self)@.slots);
                        Err(ExecutorError::ReadyQueueOverflow)
                    },
                }
            },
        }
    }

    /// Takes back `task`, which was handed out and has suspended itself: see
    /// `suspend_spec`.
    pub fn suspend(&mut self, task: Task<B>) -> (suspended: Result<(), ExecutorError>)
        requires
            old(self).wf(),
        ensures
            final(self).wf(),
            (final(self)@, suspended) == suspend_spec(old(self)@, task),
    {
        proof {
            lemma_suspend(self@, task);
        }
        let key = task.id.0;
        match self.tasks.remove(&key) {
            None => {
                assert(self@.slots =~= old(self)@.slots);
                Err(ExecutorError::NotRunning)
            },
            Some(Slot::Running { woken }) => {
                if woken {
                    match self.task_queue.push(key) {
                        Ok(()) => {
                            self.tasks.insert(key, Slot::Runnable { body: task.body });
                            assert(self@.slots =~= old(self)@.slots.insert(
                                key,
                                Slot::Runnable { body: task.body },
                            ));
                            Ok(())
                        },
                        Err(_) => {
                            self.tasks.insert(key, Slot::Suspended { body: task.body });
                            assert(self@.slots =~= old(self)@.slots.insert(
                                key,
                                Slot::Suspended { body: task.body },
                            ));
                            Err(ExecutorError::ReadyQueueOverflow)
                        },
                    }
                } else {
                    self.tasks.insert(key, Slot::Suspended { body: task.body });
                    assert(self@.slots =~= old(self)@.slots.insert(
                        key,
                        Slot::Suspended { body: task.body },
                    ));
                    Ok(())
                }
            },
            Some(other) => {
                self.tasks.insert(key, other);
                assert(self@.slots =~= old(self)@.slots);
                Err(ExecutorError::NotRunning)
            },
        }
    }

    /// Takes back `task`, which was handed out and has run to its end, and
    /// drops it: see `complete_spec`.
    pub fn complete(&mut self, task: Task<B>) -> (completed: Result<(), ExecutorError>)
        requires
            old(self).wf(),
        ensures
            final(self).wf(),
            (final(self)@, completed) == complete_spec(old(self)@, task),
    {
        proof {
            lemma_complete(self@, task);
        }
        let key = task.id.0;
        match self.tasks.remove(&key) {
            None => {
                assert(self@.slots =~= old(self)@.slots);
                Err(ExecutorError::NotRunning)
            },
            Some(Slot::Running { woken: _ }) => {
                self.waker_cache.remove(&key);
                Ok(())
            },
            Some(other) => {
                self.tasks.insert(key, other);
                assert(self@.slots =~= old(self)@.slots);
                Err(ExecutorError::NotRunning)
            },
        }
    }

    /// Keeps `trigger` as the resume trigger of the task `id`, if the task is
    /// registered and has none yet; else hands it back.
    pub fn cache_trigger(&mut self, id: TaskId, trigger: W) -> (cached: Result<(), W>)
        requires
            old(self).wf(),
        ensures
            final(self).wf(),
            (final(self)@, cached) == cache_trigger_spec(old(self)@, id, trigger),
    {
        proof {
            lemma_cache_trigger(self@, id, trigger);
        }
        let key = id.0;
        if !self.tasks.contains_key(&key) || self.waker_cache.contains_key(&key) {
            return Err(trigger);
        }
        self.waker_cache.insert(key, trigger);
        Ok(())
    }

    /// The resume trigger that is kept for the task `id`.
    pub fn trigger(&self, id: TaskId) -> (trigger: Option<&W>)
        ensures
            match trigger {
                Some(kept) => self@.triggers.contains_key(id.0) && *kept == self@.triggers[id.0],
                None => !self@.triggers.contains_key(id.0),
            },
    {
        let key = id.0;
        self.waker_cache.get(&key)
    }

    /// The state of the task `id`, if it is registered.
    pub fn state(&self, id: TaskId) -> (state: Option<TaskState>)
        ensures
            state == self@.state(id.0),
    {
        let key = id.0;
        match self.tasks.get(&key) {
            None => None,
            Some(Slot::Runnable { .. }) => Some(TaskState::Runnable),
            Some(Slot::Running { .. }) => Some(TaskState::Running),
            Some(Slot::Suspended { .. }) => Some(TaskState::Suspended),
        }
    }

    /// The number of tasks that are ready to run.
    pub fn ready_count(&self) -> (count: usize)
        ensures
            count == self@.ready.len(),
    {
        self.task_queue.len()
    }

    /// Whether no task is ready to run, so that the core may halt until the
    /// next interrupt.
    pub fn should_idle(&self) -> (idle: bool)
        ensures
            idle == (self@.ready.len() == 0),
    {
        self.task_queue.is_empty()
    }
}


/// Keeping a trigger keeps the executor well-formed, the pass as it is, and
/// the tasks as they are.
pub proof fn lemma_cache_trigger<B, W>(v: ExecutorView<B, W>, id: TaskId, trigger: W)
    requires
        v.wf(),
    ensures
        cache_trigger_spec(v, id, trigger).0.wf(),
        cache_trigger_spec(v, id, trigger).0.pass() == v.pass(),
        cache_trigger_spec(v, id, trigger).0.slots == v.slots,
{
    let w = cache_trigger_spec(v, id, trigger).0;
    assert forall|i: int| 0 <= i < w.ready.len() implies w.is_runnable(#[trigger] w.ready[i]) by {
        assert(v.is_runnable(v.ready[i]));
    }
    assert forall|other: u64| #[trigger] w.is_runnable(other) implies w.ready.contains(other) by {
        assert(v.is_runnable(other));
    }
}

/// A second task with the identity of a registered one is never taken in
/// place of the first: once `first` is registered, `second` is refused, and
/// the executor stays as the first spawn left it, whatever has happened to
/// the first task meanwhile short of its completion.
pub proof fn lemma_duplicate_spawn_refused<B, W>(
    v: ExecutorView<B, W>,
    first: Task<B>,
    events: Seq<Event<B, W>>,
    second: Task<B>,
)
    requires
        v.wf(),
        spawn_spec(v, first).1 is Ok,
        first.id == second.id,
        forall|i: int|
            0 <= i < events.len() ==> !(#[trigger] events[i] matches Event::Complete(task)
                && task.id == first.id),
    ensures
        ({
            let before = events_spec(spawn_spec(v, first).0, events);
            &&& before.slots.contains_key(first.id.0)
            &&& spawn_spec(before, second) == (
                before,
                Err::<(), ExecutorError>(ExecutorError::DuplicateTaskId),
            )
        }),
        spawn_spec(spawn_spec(v, first).0, second).0.slots[first.id.0] == (Slot::Runnable {
            body: first.body,
        }),
    decreases events.len(),
{
    lemma_spawn(v, first);
    if events.len() > 0 {
        lemma_duplicate_spawn_refused(v, first, events.drop_last(), second);
        lemma_events(spawn_spec(v, first).0, events.drop_last());
        assert(events[events.len() - 1] == events.last());
    }
}

/// Waking a task twice is waking it once: the second wake changes nothing.
pub proof fn lemma_wake_twice<B, W>(v: ExecutorView<B, W>, id: TaskId)
    requires
        v.wf(),
    ensures
        wake_spec(wake_spec(v, id).0, id).0 == wake_spec(v, id).0,
        wake_spec(v, id).1 == Ok::<Woken, ExecutorError>(Woken::Queued) ==> wake_spec(
            wake_spec(v, id).0,
            id,
        ).1 == Ok::<Woken, ExecutorError>(Woken::AlreadyQueued),
{
    let w = wake_spec(v, id).0;
    if v.slots.contains_key(id.0) && v.slots[id.0] is Running {
        assert(wake_spec(w, id).0.slots =~= w.slots);
    }
}

/// What may happen to an executor between two tasks of a pass.
pub enum Event<B, W> {
    Spawn(Task<B>),
    Wake(TaskId),
    Suspend(Task<B>),
    Complete(Task<B>),
    CacheTrigger(TaskId, W),
}

/// The executor after the event.
pub open spec fn event_spec<B, W>(v: ExecutorView<B, W>, event: Event<B, W>) -> ExecutorView<B, W> {
    match event {
        Event::Spawn(task) => spawn_spec(v, task).0,
        Event::Wake(id) => wake_spec(v, id).0,
        Event::Suspend(task) => suspend_spec(v, task).0,
        Event::Complete(task) => complete_spec(v, task).0,
        Event::CacheTrigger(id, trigger) => cache_trigger_spec(v, id, trigger).0,
    }
}

/// The executor after the events, in their order.
pub open spec fn events_spec<B, W>(v: ExecutorView<B, W>, events: Seq<Event<B, W>>) -> ExecutorView<B, W>
    decreases events.len(),
{
    if events.len() == 0 {
        v
    } else {
        event_spec(events_spec(v, events.drop_last()), events.last())
    }
}

/// The executor after a pass was begun and `rounds.len()` tasks were asked
/// for, with the events `rounds[k]` coming in before the task `k` was asked
/// for.
pub open spec fn pass_spec<B, W>(v: ExecutorView<B, W>, rounds: Seq<Seq<Event<B, W>>>) -> ExecutorView<B, W>
    decreases rounds.len(),
{
    if rounds.len() == 0 {
        begin_pass_spec(v)
    } else {
        next_ready_spec(events_spec(pass_spec(v, rounds.drop_last()), rounds.last())).0
    }
}

/// What the last of these requests handed out.
pub open spec fn handed_out<B, W>(v: ExecutorView<B, W>, rounds: Seq<Seq<Event<B, W>>>) -> Option<Task<B>>
    recommends
        rounds.len() > 0,
{
    next_ready_spec(events_spec(pass_spec(v, rounds.drop_last()), rounds.last())).1
}

/// An event keeps the executor well-formed, the pass as it is, and every task
/// that is ready to run as it is.
pub proof fn lemma_event<B, W>(v: ExecutorView<B, W>, event: Event<B, W>)
    requires
        v.wf(),
    ensures
        event_spec(v, event).wf(),
        event_spec(v, event).pass() == v.pass(),
        forall|id: u64| #[trigger]
            v.is_runnable(id) ==> event_spec(v, event).slots.contains_key(id) && event_spec(
                v,
                event,
            ).slots[id] == v.slots[id],
{
    match event {
        Event::Spawn(task) => lemma_spawn(v, task),
        Event::Wake(id) => lemma_wake(v, id),
        Event::Suspend(task) => lemma_suspend(v, task),
        Event::Complete(task) => lemma_complete(v, task),
        Event::CacheTrigger(id, trigger) => lemma_cache_trigger(v, id, trigger),
    }
}

/// So do any number of events.
pub proof fn lemma_events<B, W>(v: ExecutorView<B, W>, events: Seq<Event<B, W>>)
    requires
        v.wf(),
    ensures
        events_spec(v, events).wf(),
        events_spec(v, events).pass() == v.pass(),
        forall|id: u64| #[trigger]
            v.is_runnable(id) ==> events_spec(v, events).slots.contains_key(id) && events_spec(
                v,
                events,
            ).slots[id] == v.slots[id],
    decreases events.len(),
{
    if events.len() > 0 {
        let before = events_spec(v, events.drop_last());
        lemma_events(v, events.drop_last());
        lemma_event(before, events.last());
        assert forall|id: u64| #[trigger] v.is_runnable(id) implies events_spec(
            v,
            events,
        ).slots.contains_key(id) && events_spec(v, events).slots[id] == v.slots[id] by {
            assert(before.is_runnable(id));
        }
    }
}

/// A pass runs the tasks that were ready to run when it began, each once, in
/// the order of the ready queue, whatever comes in meanwhile: the request
/// number `k` hands out the task that was at place `k` of the ready queue,
/// with the body it had, and the requests behind the last of these tasks hand
/// out nothing.
pub proof fn lemma_pass_order<B, W>(v: ExecutorView<B, W>, rounds: Seq<Seq<Event<B, W>>>)
    requires
        v.wf(),
    ensures
        pass_spec(v, rounds).wf(),
        pass_spec(v, rounds).pass() == v.ready.skip(
            if rounds.len() <= v.ready.len() {
                rounds.len() as int
            } else {
                v.ready.len() as int
            },
        ),
        forall|i: int|
            0 <= i < pass_spec(v, rounds).pass().len() ==> pass_spec(v, rounds).slots[#[trigger] pass_spec(
                v,
                rounds,
            ).pass()[i]] == v.slots[pass_spec(v, rounds).pass()[i]],
        rounds.len() > 0 ==> (match handed_out(v, rounds) {
            Some(task) => {
                &&& rounds.len() <= v.ready.len()
                &&& task.id.0 == v.ready[rounds.len() - 1]
                &&& v.slots[task.id.0] == (Slot::Runnable { body: task.body })
            },
            None => rounds.len() > v.ready.len(),
        }),
    decreases rounds.len(),
{
    let after = pass_spec(v, rounds);
    if rounds.len() == 0 {
        lemma_begin_pass(v);
        assert(v.ready.skip(0) =~= v.ready);
    } else {
        let before = pass_spec(v, rounds.drop_last());
        lemma_pass_order(v, rounds.drop_last());
        let k = rounds.len() - 1;
        let mid = events_spec(before, rounds.last());
        assert forall|i: int| 0 <= i < before.pass().len() implies before.is_runnable(
            #[trigger] before.pass()[i],
        ) by {
            assert(before.pass()[i] == before.ready[i]);
        }
        lemma_events(before, rounds.last());
        lemma_next_ready(mid);
        if k < v.ready.len() {
            assert(before.pass().len() > 0);
            assert(before.pass()[0] == v.ready[k]);
            assert(before.is_runnable(before.pass()[0]));
            assert(v.ready.skip(k).skip(1) =~= v.ready.skip(k + 1));
            assert forall|i: int| 0 <= i < after.pass().len() implies after.slots[#[trigger] after.pass()[i]]
                == v.slots[after.pass()[i]] by {
                let id = after.pass()[i];
                assert(id == before.pass()[i + 1]);
                assert(before.is_runnable(id));
                assert(id != before.pass()[0]) by {
                    assert(before.ready[i + 1] != before.ready[0]);
                }
            }
        } else {
            assert(before.pass().len() == 0);
        }
    }
}


/// The steps that the state of a task may take: a task that is ready to run
/// stays so; a suspended task stays suspended or becomes ready to run; a task
/// that runs goes on, suspends itself, is ready to run again or is gone; and a
/// task that is not registered stays so or is spawned, ready to run.
pub open spec fn may_follow(before: Option<TaskState>, after: Option<TaskState>) -> bool {
    match before {
        None => after is None || after == Some(TaskState::Runnable),
        Some(TaskState::Runnable) => after == Some(TaskState::Runnable),
        Some(TaskState::Suspended) => after == Some(TaskState::Suspended) || after == Some(
            TaskState::Runnable,
        ),
        Some(TaskState::Running) => true,
    }
}

/// No event takes a task out of the order of its states. Only handing a task
/// out makes it run, and it is the task itself, by coming back suspended or
/// completed, that ends its run: no other event moves a task that runs.
pub proof fn lemma_state_machine<B, W>(v: ExecutorView<B, W>, event: Event<B, W>, id: u64)
    requires
        v.wf(),
    ensures
        may_follow(v.state(id), event_spec(v, event).state(id)),
        v.state(id) == Some(TaskState::Running) && event_spec(v, event).state(id) != Some(
            TaskState::Running,
        ) ==> (event matches Event::Suspend(task) && task.id.0 == id) || (
        event matches Event::Complete(task) && task.id.0 == id),
        match next_ready_spec(v).1 {
            Some(task) => next_ready_spec(v).0.state(id) == (if id == task.id.0 {
                Some(TaskState::Running)
            } else {
                v.state(id)
            }) && v.state(task.id.0) == Some(TaskState::Runnable),
            None => next_ready_spec(v).0.state(id) == v.state(id),
        },
{
}

} // verus!
