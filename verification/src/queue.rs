use vstd::prelude::*;

verus! {

/// `crossbeam_queue::ArrayQueue`, taken as it is: nothing is claimed of what
/// lies inside a value of it.
#[verifier::external_type_specification]
#[verifier::external_body]
#[verifier::reject_recursive_types(T)]
pub struct ExArrayQueue<T>(crossbeam_queue::ArrayQueue<T>);

/// The items that an `ArrayQueue` holds, the oldest first.
pub uninterp spec fn queue_items(q: crossbeam_queue::ArrayQueue<u64>) -> Seq<u64>;

/// The number of items that an `ArrayQueue` was made to hold.
pub uninterp spec fn queue_capacity(q: crossbeam_queue::ArrayQueue<u64>) -> nat;

/// A capacity that a queue can be made with: not zero, and small enough for
/// its slots, of 16 bytes each, to be allocated.
pub open spec fn capacity_ok(capacity: usize) -> bool {
    0 < capacity <= isize::MAX / 16
}

/// Calls `ArrayQueue::new`, which allocates `capacity` slots and panics when
/// `capacity` is zero. Claimed: the new queue is empty and has that capacity.
#[verifier::external_body]
fn array_queue_new(capacity: usize) -> (q: crossbeam_queue::ArrayQueue<u64>)
    requires
        capacity_ok(capacity),
    ensures
        queue_items(q) == Seq::<u64>::empty(),
        queue_capacity(q) == capacity,
{
    crossbeam_queue::ArrayQueue::new(capacity)
}

/// Calls `ArrayQueue::push`. Claimed, for a queue that no one else is using
/// during the call: below capacity the item goes behind the others; at
/// capacity the queue stays as it is and the item comes back.
#[verifier::external_body]
fn array_queue_push(q: &mut crossbeam_queue::ArrayQueue<u64>, item: u64) -> (pushed: Result<
    (),
    u64,
>)
    ensures
        queue_capacity(*final(q)) == queue_capacity(*old(q)),
        match pushed {
            Ok(_) => {
                &&& queue_items(*old(q)).len() < queue_capacity(*old(q))
                &&& queue_items(*final(q)) == queue_items(*old(q)).push(item)
            },
            Err(back) => {
                &&& queue_items(*old(q)).len() >= queue_capacity(*old(q))
                &&& queue_items(*final(q)) == queue_items(*old(q))
                &&& back == item
            },
        },
{
    match q.push(item) {
        Ok(()) => Ok(()),
        Err(crossbeam_queue::PushError(back)) => Err(back),
    }
}

/// Calls `ArrayQueue::pop`. Claimed, for a queue that no one else is using
/// during the call: the oldest item leaves the queue and is returned; an empty
/// queue stays empty and gives nothing.
#[verifier::external_body]
fn array_queue_pop(q: &mut crossbeam_queue::ArrayQueue<u64>) -> (popped: Option<u64>)
    ensures
        queue_capacity(*final(q)) == queue_capacity(*old(q)),
        match popped {
            Some(item) => {
                &&& queue_items(*old(q)).len() > 0
                &&& item == queue_items(*old(q))[0]
                &&& queue_items(*final(q)) == queue_items(*old(q)).skip(1)
            },
            None => {
                &&& queue_items(*old(q)).len() == 0
                &&& queue_items(*final(q)) == queue_items(*old(q))
            },
        },
{
    match q.pop() {
        Ok(item) => Some(item),
        Err(_) => None,
    }
}

/// Calls `ArrayQueue::len`. Claimed: it is the number of items held.
#[verifier::external_body]
fn array_queue_len(q: &crossbeam_queue::ArrayQueue<u64>) -> (len: usize)
    ensures
        len == queue_items(*q).len(),
{
    q.len()
}

/// Calls `ArrayQueue::capacity`. Claimed: it is the capacity the queue was
/// made with.
#[verifier::external_body]
fn array_queue_capacity(q: &crossbeam_queue::ArrayQueue<u64>) -> (capacity: usize)
    ensures
        capacity == queue_capacity(*q),
{
    q.capacity()
}

/// The queue after a push of `item`, and whether the item was accepted: it
/// is, behind the items already there, unless the queue is at capacity.
pub open spec fn push_spec(items: Seq<u64>, capacity: nat, item: u64) -> (Seq<u64>, bool) {
    if items.len() < capacity {
        (items.push(item), true)
    } else {
        (items, false)
    }
}

/// The queue after a pop, and the item that came out: the oldest one, if
/// there is any.
pub open spec fn pop_spec(items: Seq<u64>) -> (Seq<u64>, Option<u64>) {
    if items.len() > 0 {
        (items.skip(1), Some(items[0]))
    } else {
        (items, None)
    }
}

/// The item that a full queue turned away.
#[derive(Debug, Clone, Copy, PartialEq, Eq)]
pub struct QueueFull(pub u64);

/// The queue held no item.
#[derive(Debug, Clone, Copy, PartialEq, Eq)]
pub struct QueueEmpty;

/// A queue of fixed capacity that hands items from a producer to a consumer
/// in the order in which they were pushed. A push never waits and never grows
/// the queue: at capacity it fails.
pub struct HandoffQueue {
    inner: crossbeam_queue::ArrayQueue<u64>,
}

impl View for HandoffQueue {
    type V = Seq<u64>;

    closed spec fn view(&self) -> Seq<u64> {
        queue_items(self.inner)
    }
}

impl HandoffQueue {
    /// The number of items the queue can hold.
    pub closed spec fn spec_capacity(&self) -> nat {
        queue_capacity(self.inner)
    }

    /// The queue holds no more than its capacity, which is not zero.
    pub open spec fn wf(&self) -> bool {
        0 < self.spec_capacity() && self@.len() <= self.spec_capacity()
    }

    /// An empty queue for up to `capacity` items.
    pub fn new(capacity: usize) -> (queue: Self)
        requires
            capacity_ok(capacity),
        ensures
            queue.wf(),
            queue@ == Seq::<u64>::empty(),
            queue.spec_capacity() == capacity,
    {
        HandoffQueue { inner: array_queue_new(capacity) }
    }

    /// Puts `item` behind the items in the queue, or fails with the item when
    /// the queue is at capacity.
    pub fn push(&mut self, item: u64) -> (pushed: Result<(), QueueFull>)
        requires
            old(self).wf(),
        ensures
            final(self).wf(),
            final(self).spec_capacity() == old(self).spec_capacity(),
            final(self)@ == push_spec(old(self)@, old(self).spec_capacity(), item).0,
            pushed is Ok == push_spec(old(self)@, old(self).spec_capacity(), item).1,
            pushed is Err ==> pushed == Err::<(), QueueFull>(QueueFull(item)),
    {
        match array_queue_push(&mut self.inner, item) {
            Ok(()) => Ok(()),
            Err(back) => Err(QueueFull(back)),
        }
    }

    /// Takes the oldest item out of the queue, or fails when there is none.
    pub fn pop(&mut self) -> (popped: Result<u64, QueueEmpty>)
        requires
            old(self).wf(),
        ensures
            final(self).wf(),
            final(self).spec_capacity() == old(self).spec_capacity(),
            final(self)@ == pop_spec(old(self)@).0,
            match popped {
                Ok(item) => pop_spec(old(self)@).1 == Some(item),
                Err(_) => pop_spec(old(self)@).1 is None,
            },
    {
        match array_queue_pop(&mut self.inner) {
            Some(item) => Ok(item),
            None => Err(QueueEmpty),
        }
    }

    /// The number of items in the queue.
    pub fn len(&self) -> (len: usize)
        ensures
            len == self@.len(),
    {
        array_queue_len(&self.inner)
    }

    /// The number of items the queue can hold.
    pub fn capacity(&self) -> (capacity: usize)
        ensures
            capacity == self.spec_capacity(),
    {
        array_queue_capacity(&self.inner)
    }

    /// Whether the queue holds no item.
    pub fn is_empty(&self) -> (empty: bool)
        ensures
            empty == (self@.len() == 0),
    {
        array_queue_len(&self.inner) == 0
    }

    /// Whether the queue is at capacity.
    pub fn is_full(&self) -> (full: bool)
        ensures
            full == (self@.len() == self.spec_capacity()),
    {
        array_queue_len(&self.inner) == array_queue_capacity(&self.inner)
    }
}

/// The queue after the items `xs` were pushed in this order.
pub open spec fn push_all(items: Seq<u64>, capacity: nat, xs: Seq<u64>) -> Seq<u64>
    decreases xs.len(),
{
    if xs.len() == 0 {
        items
    } else {
        push_spec(push_all(items, capacity, xs.drop_last()), capacity, xs.last()).0
    }
}

/// The queue after `n` pops.
pub open spec fn pop_times(items: Seq<u64>, n: nat) -> Seq<u64>
    decreases n,
{
    if n == 0 {
        items
    } else {
        pop_spec(pop_times(items, (n - 1) as nat)).0
    }
}

/// Pushing no more items than an empty queue can hold accepts them all and
/// keeps their order.
pub proof fn lemma_push_all_within_capacity(capacity: nat, xs: Seq<u64>)
    requires
        xs.len() <= capacity,
    ensures
        push_all(Seq::empty(), capacity, xs) == xs,
        forall|k: int|
            0 <= k < xs.len() ==> #[trigger] push_spec(
                push_all(Seq::empty(), capacity, xs.take(k)),
                capacity,
                xs[k],
            ).1,
    decreases xs.len(),
{
    if xs.len() > 0 {
        let front = xs.drop_last();
        lemma_push_all_within_capacity(capacity, front);
        assert(front.push(xs.last()) =~= xs);
        assert forall|k: int| 0 <= k < xs.len() implies #[trigger] push_spec(
            push_all(Seq::empty(), capacity, xs.take(k)),
            capacity,
            xs[k],
        ).1 by {
            if k < front.len() {
                assert(xs.take(k) =~= front.take(k));
                assert(push_spec(
                    push_all(Seq::empty(), capacity, front.take(k)),
                    capacity,
                    front[k],
                ).1);
            } else {
                assert(xs.take(k) =~= front);
            }
        }
    }
}

/// Popping `n` times from a queue that holds at least `n` items takes its
/// first `n` items, in their order.
pub proof fn lemma_pop_times(items: Seq<u64>, n: nat)
    requires
        n <= items.len(),
    ensures
        pop_times(items, n) == items.skip(n as int),
        forall|k: int| 0 <= k < n ==> #[trigger] pop_spec(pop_times(items, k as nat)).1 == Some(
            items[k],
        ),
    decreases n,
{
    if n > 0 {
        let m = (n - 1) as nat;
        lemma_pop_times(items, m);
        assert(items.skip(m as int).skip(1) =~= items.skip(n as int));
        assert forall|k: int| 0 <= k < n implies #[trigger] pop_spec(
            pop_times(items, k as nat),
        ).1 == Some(items[k]) by {
            if k == m {
                assert(pop_times(items, m) == items.skip(m as int));
            }
        }
    } else {
        assert(items.skip(0) =~= items);
    }
}

/// A queue of capacity `capacity` accepts exactly that many pushes from
/// empty: each of the items `xs` goes in, one more is turned away and leaves
/// the queue as it is. As many pops then give the items back in the order of
/// the pushes, and the next pop finds the queue empty.
pub proof fn lemma_fill_then_drain(capacity: nat, xs: Seq<u64>, extra: u64)
    requires
        0 < capacity,
        xs.len() == capacity,
    ensures
        forall|k: int|
            0 <= k < xs.len() ==> #[trigger] push_spec(
                push_all(Seq::empty(), capacity, xs.take(k)),
                capacity,
                xs[k],
            ).1,
        push_all(Seq::empty(), capacity, xs) == xs,
        push_spec(xs, capacity, extra) == (xs, false),
        forall|k: int| 0 <= k < xs.len() ==> #[trigger] pop_spec(pop_times(xs, k as nat)).1
            == Some(xs[k]),
        pop_times(xs, xs.len()) == Seq::<u64>::empty(),
        pop_spec(pop_times(xs, xs.len())) == (Seq::<u64>::empty(), None::<u64>),
{
    lemma_push_all_within_capacity(capacity, xs);
    lemma_pop_times(xs, xs.len());
    assert(xs.skip(xs.len() as int) =~= Seq::<u64>::empty());
}

} // verus!
