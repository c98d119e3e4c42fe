use vstd::prelude::*;
use crate::queue::HandoffQueue;
use crate::task::waker::notify_spec;
use crate::task::waker::register_spec;
use crate::task::waker::take_spec;
use crate::task::waker::SignalState;
use crate::task::waker::WakeSignal;
use crate::task::TaskId;

verus! {

/// The number of scancodes that can wait for the consumer.
pub const SCANCODE_QUEUE_CAPACITY: usize = 100;

/// What the bridge between the keyboard interrupt and the keyboard task holds:
/// the scancodes that wait, the oldest first, once the queue has been set up,
/// and the wake signal of the consumer.
pub struct BridgeView {
    pub queue: Option<Seq<u8>>,
    pub waker: SignalState,
}

impl BridgeView {
    /// The queue holds no more than its capacity.
    pub open spec fn wf(self) -> bool {
        self.queue matches Some(items) ==> items.len() <= SCANCODE_QUEUE_CAPACITY
    }

    /// The bridge before its queue is set up.
    pub open spec fn uninit() -> BridgeView {
        BridgeView { queue: None, waker: SignalState::Idle }
    }
}

/// What became of a scancode that the producer handed in.
#[derive(Debug, Clone, Copy, PartialEq, Eq, Structural)]
pub enum Delivery {
    /// It waits in the queue, and `wake` is the task to resume, if one waited.
    Queued { wake: Option<TaskId> },
    /// The queue was at capacity: the scancode is dropped.
    QueueFull,
    /// The queue was not set up: the scancode is dropped.
    Uninitialized,
}

/// What a poll of the scancode stream gave: the next scancode, if one was
/// there, and in `wake` the polling task if it is to be resumed at once
/// because a notification was pending when it registered.
#[derive(Debug, Clone, Copy, PartialEq, Eq, Structural)]
pub struct StreamPoll {
    pub item: Option<u8>,
    pub wake: Option<TaskId>,
}

/// The producer's path: the scancode goes into the queue and the signal is
/// notified. A full queue, or one that is not set up, drops the scancode and
/// leaves the bridge as it is.
pub open spec fn add_spec(b: BridgeView, scancode: u8) -> (BridgeView, Delivery) {
    match b.queue {
        None => (b, Delivery::Uninitialized),
        Some(items) => {
            if items.len() < SCANCODE_QUEUE_CAPACITY {
                let (waker, wake) = notify_spec(b.waker);
                (BridgeView { queue: Some(items.push(scancode)), waker }, Delivery::Queued { wake })
            } else {
                (b, Delivery::QueueFull)
            }
        },
    }
}

/// The first step of a poll: the oldest scancode leaves the queue, if there
/// is one.
pub open spec fn check_spec(b: BridgeView) -> (BridgeView, Option<u8>) {
    match b.queue {
        Some(items) if items.len() > 0 => (
            BridgeView { queue: Some(items.skip(1)), waker: b.waker },
            Some(items[0]),
        ),
        _ => (b, None),
    }
}

/// The second step, taken when the first found nothing: the polling task
/// registers with the signal.
pub open spec fn arm_spec(b: BridgeView, task: TaskId) -> (BridgeView, Option<TaskId>) {
    let (waker, wake) = register_spec(b.waker, task);
    (BridgeView { queue: b.queue, waker }, wake)
}

/// The third step: the queue is looked at once more, and a scancode that has
/// arrived meanwhile is taken, with the registration withdrawn.
pub open spec fn recheck_spec(b: BridgeView) -> (BridgeView, Option<u8>) {
    let (checked, item) = check_spec(b);
    if item is Some {
        (BridgeView { queue: checked.queue, waker: take_spec(checked.waker).0 }, item)
    } else {
        (checked, None)
    }
}

/// A poll made of these three steps with nothing happening in between.
pub open spec fn poll_spec(b: BridgeView, task: TaskId) -> (BridgeView, StreamPoll) {
    let (checked, first) = check_spec(b);
    if first is Some {
        (checked, StreamPoll { item: first, wake: None })
    } else {
        let (armed, wake) = arm_spec(checked, task);
        let (rechecked, second) = recheck_spec(armed);
        (rechecked, StreamPoll { item: second, wake })
    }
}

/// The state shared by the producer of scancodes, which runs in interrupt
/// context, and the task that consumes them. The queue is set up once, by the
/// creation of the stream; until then scancodes are dropped.
pub struct ScancodeBridge {
    queue: Option<HandoffQueue>,
    waker: WakeSignal,
}

impl View for ScancodeBridge {
    type V = BridgeView;

    closed spec fn view(&self) -> BridgeView {
        BridgeView {
            queue: match self.queue {
                Some(queue) => Some(queue@.map_values(|word: u64| word as u8)),
                None => None,
            },
            waker: self.waker@,
        }
    }
}

impl ScancodeBridge {
    /// The queue, once set up, has the capacity for scancodes and holds bytes.
    pub closed spec fn inv(&self) -> bool {
        self.queue matches Some(queue) ==> {
            &&& queue.wf()
            &&& queue.spec_capacity() == SCANCODE_QUEUE_CAPACITY
            &&& forall|i: int| 0 <= i < queue@.len() ==> #[trigger] queue@[i] <= u8::MAX
        }
    }

    pub open spec fn wf(&self) -> bool {
        self.inv() && self@.wf()
    }

    /// A bridge whose queue is not set up yet.
    pub fn new() -> (bridge: Self)
        ensures
            bridge.wf(),
            bridge@ == BridgeView::uninit(),
    {
        ScancodeBridge { queue: None, waker: WakeSignal::new() }
    }

    /// Whether the queue has been set up.
    pub fn is_initialized(&self) -> (initialized: bool)
        ensures
            initialized == self@.queue is Some,
    {
        self.queue.is_some()
    }

    /// The number of scancodes that wait in the queue; none before it is set
    /// up.
    pub fn waiting(&self) -> (count: usize)
        ensures
            count == match self@.queue {
                Some(items) => items.len(),
                None => 0,
            },
    {
        match &self.queue {
            Some(queue) => queue.len(),
            None => 0,
        }
    }

    /// The producer's path: hands `scancode` to the consumer and notifies its
    /// signal. Never waits: a scancode that cannot be queued is dropped, and
    /// the result says why.
    pub fn add_scancode(&mut self, scancode: u8) -> (delivery: Delivery)
        requires
            old(self).wf(),
        ensures
            final(self).wf(),
            (final(self)@, delivery) == add_spec(old(self)@, scancode),
    {
        match &mut self.queue {
            Some(queue) => {
                let ghost before = queue@;
                match queue.push(scancode as u64) {
                    Ok(()) => {
                        assert(queue@.map_values(|word: u64| word as u8) =~= before.map_values(
                            |word: u64| word as u8,
                        ).push(scancode));
                        let wake = self.waker.notify();
                        Delivery::Queued { wake }
                    },
                    Err(_) => Delivery::QueueFull,
                }
            },
            None => Delivery::Uninitialized,
        }
    }

    /// Takes the oldest scancode out of the queue, if there is one.
    fn pop_scancode(&mut self) -> (scancode: Option<u8>)
        requires
            old(self).wf(),
            old(self)@.queue is Some,
        ensures
            final(self).wf(),
            (final(self)@, scancode) == check_spec(old(self)@),
    {
        match &mut self.queue {
            Some(queue) => {
                let ghost before = queue@;
                match queue.pop() {
                    Ok(word) => {
                        assert(word == before[0]);
                        assert(queue@.map_values(|word: u64| word as u8) =~= before.map_values(
                            |word: u64| word as u8,
                        ).skip(1));
                        Some(word as u8)
                    },
                    Err(_) => None,
                }
            },
            None => None,
        }
    }
}

/// The queue was set up before.
#[derive(Debug, Clone, Copy, PartialEq, Eq)]
pub struct AlreadyInitialized;

/// The consumer's end of the bridge: the scancodes, one at a time, in the
/// order in which they arrived.
pub struct ScancodeStream {
    _private: (),
}

impl ScancodeStream {
    /// Sets up the queue of `bridge` and returns the stream that reads from
    /// it. Fails, and leaves the bridge as it is, when the queue was set up
    /// before.
    pub fn new(bridge: &mut ScancodeBridge) -> (stream: Result<ScancodeStream, AlreadyInitialized>)
        requires
            old(bridge).wf(),
        ensures
            final(bridge).wf(),
            match stream {
                Ok(_) => old(bridge)@.queue is None && final(bridge)@ == (BridgeView {
                    queue: Some(Seq::empty()),
                    waker: old(bridge)@.waker,
                }),
                Err(_) => old(bridge)@.queue is Some && final(bridge)@ == old(bridge)@,
            },
    {
        if bridge.queue.is_some() {
            return Err(AlreadyInitialized);
        }
        let queue = HandoffQueue::new(SCANCODE_QUEUE_CAPACITY);
        assert(queue@.map_values(|word: u64| word as u8) =~= Seq::<u8>::empty());
        bridge.queue = Some(queue);
        Ok(ScancodeStream { _private: () })
    }

    /// The consumer's path, for the task `task`. A scancode that waits is
    /// returned. Else the task registers with the signal and the queue is
    /// looked at once more before the task is left suspended.
    pub fn poll_next(&mut self, bridge: &mut ScancodeBridge, task: TaskId) -> (polled: StreamPoll)
        requires
            old(bridge).wf(),
            old(bridge)@.queue is Some,
        ensures
            final(bridge).wf(),
            (final(bridge)@, polled) == poll_spec(old(bridge)@, task),
    {
        if let Some(scancode) = bridge.pop_scancode() {
            return StreamPoll { item: Some(scancode), wake: None };
        }
        let wake = bridge.waker.register(task);
        match bridge.pop_scancode() {
            Some(scancode) => {
                bridge.waker.take();
                StreamPoll { item: Some(scancode), wake }
            },
            None => StreamPoll { item: None, wake },
        }
    }
}


/// The producer's path, taken only if `now`: the bridge afterwards and the
/// task that the notification resumed.
pub open spec fn arrive_if(now: bool, b: BridgeView, scancode: u8) -> (BridgeView, Option<TaskId>) {
    if now {
        match add_spec(b, scancode).1 {
            Delivery::Queued { wake } => (add_spec(b, scancode).0, wake),
            _ => (add_spec(b, scancode).0, None),
        }
    } else {
        (b, None)
    }
}

/// A poll by `task` during which one scancode arrives: before the first step
/// of the poll (`place` 0), between the first and the second (1), between the
/// second and the third (2), or behind the last (3 and more). Gives the bridge
/// afterwards, what the poll returned, and the task that the arrival resumed.
pub open spec fn poll_with_arrival(b: BridgeView, task: TaskId, scancode: u8, place: int) -> (
    BridgeView,
    StreamPoll,
    Option<TaskId>,
) {
    let (arrived0, resumed0) = arrive_if(place <= 0, b, scancode);
    let (checked, first) = check_spec(arrived0);
    if first is Some {
        let (arrived, resumed) = arrive_if(place > 0, checked, scancode);
        (
            arrived,
            StreamPoll { item: first, wake: None },
            if place <= 0 {
                resumed0
            } else {
                resumed
            },
        )
    } else {
        let (arrived1, resumed1) = arrive_if(place == 1, checked, scancode);
        let (armed, wake) = arm_spec(arrived1, task);
        let (arrived2, resumed2) = arrive_if(place == 2, armed, scancode);
        let (rechecked, second) = recheck_spec(arrived2);
        let (arrived3, resumed3) = arrive_if(place >= 3, rechecked, scancode);
        (
            arrived3,
            StreamPoll { item: second, wake },
            if place <= 0 {
                resumed0
            } else if place == 1 {
                resumed1
            } else if place == 2 {
                resumed2
            } else {
                resumed3
            },
        )
    }
}

/// No wake is lost, wherever a scancode arrives during a poll. The scancode
/// is returned by the poll or waits in the queue; and the polling task either
/// goes on with a scancode or is resumed, by the arrival or by its own
/// registration. On an empty queue the poll returns the scancode unless it
/// arrived behind the last step, and then the arrival resumes the task or the
/// registration has done so.
pub proof fn lemma_no_lost_wake(b: BridgeView, task: TaskId, scancode: u8, place: int)
    requires
        b.wf(),
        b.queue matches Some(items) && items.len() < SCANCODE_QUEUE_CAPACITY,
    ensures
        ({
            let (after, polled, resumed) = poll_with_arrival(b, task, scancode, place);
            &&& after.wf()
            &&& polled.item is Some || polled.wake == Some(task) || resumed == Some(task)
            &&& polled.item == Some(scancode) || (after.queue matches Some(items) && items.len() > 0
                && items.last() == scancode)
            &&& b.queue == Some(Seq::<u8>::empty()) ==> {
                if place <= 2 {
                    polled.item == Some(scancode) && after.queue == Some(Seq::<u8>::empty())
                } else {
                    polled.item is None && after.queue == Some(seq![scancode])
                }
            }
        }),
{
    let items = b.queue.unwrap();
    if items.len() == 0 {
        assert(items.push(scancode).skip(1) =~= Seq::<u8>::empty());
        assert(items.push(scancode) =~= seq![scancode]);
        assert(items =~= Seq::<u8>::empty());
    } else {
        assert(items.push(scancode).skip(1) =~= items.skip(1).push(scancode));
    }
}

} // verus!
