//! The [`TimedQueue`]: a priority queue of [`Timed`] items ordered by the time at which they
//! execute, with an optional capacity. Times are microseconds on the integrator's clock.

use std::cmp::Ordering;

use vstd::prelude::*;

use crate::action::Action;

verus! {

/// Something that is "timed": it executes at some time and can be "ready" at a given time.
pub trait Timed {
    /// The time at which it executes.
    spec fn spec_execute_at(&self) -> u64;

    /// Whether it is ready at `now`.
    spec fn spec_ready(&self, now: u64) -> bool;

    /// Returns whether it is ready at `now`.
    fn ready(&self, now: u64) -> (r: bool)
        ensures
            r == self.spec_ready(now),
    ;

    /// Returns the time at which it should be ready.
    fn execute_at(&self) -> (r: u64)
        ensures
            r == self.spec_execute_at(),
    ;
}

/// A [`Timed`] item compared by the time at which it executes; an item that executes sooner is
/// greater, so that the soonest comes first in a max-first order.
#[derive(Debug, Clone)]
pub struct Scheduled<T: Timed>(pub T);

/// The order of scheduled items: sooner is greater.
pub open spec fn scheduled_order(a: u64, b: u64) -> Ordering {
    if a < b {
        Ordering::Greater
    } else if a == b {
        Ordering::Equal
    } else {
        Ordering::Less
    }
}

impl<T: Timed> Scheduled<T> {
    /// Compares by execution time, reversed.
    pub fn cmp(&self, other: &Self) -> (r: Ordering)
        ensures
            r == scheduled_order(self.0.spec_execute_at(), other.0.spec_execute_at()),
    {
        let a = self.0.execute_at();
        let b = other.0.execute_at();
        if a < b {
            Ordering::Greater
        } else if a == b {
            Ordering::Equal
        } else {
            Ordering::Less
        }
    }
}

impl<T: Timed> PartialEq for Scheduled<T> {
    fn eq(&self, other: &Self) -> (r: bool) {
        self.0.execute_at() == other.0.execute_at()
    }
}

impl<T: Timed> vstd::std_specs::cmp::PartialEqSpecImpl for Scheduled<T> {
    open spec fn obeys_eq_spec() -> bool {
        true
    }

    open spec fn eq_spec(&self, other: &Scheduled<T>) -> bool {
        self.0.spec_execute_at() == other.0.spec_execute_at()
    }
}

impl<T: Timed> PartialOrd for Scheduled<T> {
    fn partial_cmp(&self, other: &Self) -> (r: Option<Ordering>) {
        Some(self.cmp(other))
    }
}

impl<T: Timed> vstd::std_specs::cmp::PartialOrdSpecImpl for Scheduled<T> {
    open spec fn obeys_partial_cmp_spec() -> bool {
        true
    }

    open spec fn partial_cmp_spec(&self, other: &Scheduled<T>) -> Option<Ordering> {
        Some(scheduled_order(self.0.spec_execute_at(), other.0.spec_execute_at()))
    }
}

/// An [`Action`] that is [`Timed`]: ready once its execution time has come.
#[derive(Debug, Clone, Copy, PartialEq, Eq, Structural)]
pub struct TimedAction {
    /// When to execute the action.
    pub execute_at: u64,
    /// The action to execute.
    pub action: Action,
}

impl Timed for TimedAction {
    open spec fn spec_execute_at(&self) -> u64 {
        self.execute_at
    }

    open spec fn spec_ready(&self, now: u64) -> bool {
        self.execute_at <= now
    }

    fn ready(&self, now: u64) -> (r: bool) {
        self.execute_at <= now
    }

    fn execute_at(&self) -> (r: u64) {
        self.execute_at
    }
}

/// The outcome of pushing onto a [`TimedQueue`].
#[derive(Debug, Clone, Copy, PartialEq, Eq, Structural)]
pub enum QueuePushStatus {
    /// The item was pushed and the queue still has room.
    Pushed,
    /// The item was pushed and the queue is now at capacity.
    PushedButFull,
    /// The queue was at capacity; the item was not pushed.
    Full,
}

/// Items in order of execution time (equal times in the order they were pushed).
pub open spec fn sorted_by_time<T: Timed>(s: Seq<T>) -> bool {
    forall|i: int, j: int|
        0 <= i < j < s.len() ==> #[trigger] s[i].spec_execute_at() <= #[trigger] s[j].spec_execute_at()
}

/// `new` is `old` with `item` placed after every item that executes no later than it and before
/// every item that executes later.
pub open spec fn inserted_by_time<T: Timed>(old: Seq<T>, new: Seq<T>, item: T) -> bool {
    exists|p: int|
        0 <= p <= old.len() && new == old.insert(p, item) && (forall|i: int|
            0 <= i < p ==> #[trigger] old[i].spec_execute_at() <= item.spec_execute_at()) && (
        forall|i: int|
            p <= i < old.len() ==> #[trigger] old[i].spec_execute_at() > item.spec_execute_at())
}

/// A priority queue of [`Timed`] items, ordered by [`Timed::execute_at`], with an optional
/// capacity ([`None`] for unlimited).
#[derive(Debug)]
pub struct TimedQueue<T: Timed> {
    items: Vec<T>,
    capacity: Option<usize>,
}

impl<T: Timed> TimedQueue<T> {
    #[verifier::type_invariant]
    closed spec fn inv(self) -> bool {
        &&& sorted_by_time(self.items@)
        &&& self.capacity matches Some(c) ==> self.items@.len() <= c
    }

    /// The queued items, in the order in which they will be popped.
    pub closed spec fn items(&self) -> Seq<T> {
        self.items@
    }

    /// The capacity the queue was made with.
    pub closed spec fn capacity(&self) -> Option<usize> {
        self.capacity
    }

    /// An empty queue with the given capacity ([`None`] for unlimited).
    pub fn new(capacity: Option<usize>) -> (r: Self)
        ensures
            r.items() == Seq::<T>::empty(),
            r.capacity() == capacity,
    {
        TimedQueue { items: Vec::new(), capacity }
    }

    /// Pushes an item in order of execution time, unless the queue is at capacity.
    pub fn push(&mut self, item: T) -> (r: QueuePushStatus)
        ensures
            final(self).capacity() == old(self).capacity(),
            final(self).capacity() matches Some(c) ==> final(self).items().len() <= c,
            sorted_by_time(final(self).items()),
            old(self).capacity() matches Some(c) && old(self).items().len() >= c ==> {
                &&& r == QueuePushStatus::Full
                &&& final(self).items() == old(self).items()
            },
            !(old(self).capacity() matches Some(c) && old(self).items().len() >= c) ==> {
                &&& inserted_by_time(old(self).items(), final(self).items(), item)
                &&& r == if old(self).capacity() matches Some(c) && final(self).items().len() == c {
                    QueuePushStatus::PushedButFull
                } else {
                    QueuePushStatus::Pushed
                }
            },
    {
        proof {
            use_type_invariant(&*self);
        }
        if let Some(cap) = self.capacity {
            if self.items.len() >= cap {
                return QueuePushStatus::Full;
            }
        }
        let t = item.execute_at();
        let mut p: usize = 0;
        while p < self.items.len() && self.items[p].execute_at() <= t
            invariant
                p <= self.items@.len(),
                sorted_by_time(self.items@),
                t == item.spec_execute_at(),
                forall|i: int| 0 <= i < p ==> #[trigger] self.items@[i].spec_execute_at() <= t,
            decreases self.items@.len() - p,
        {
            p = p + 1;
        }
        let ghost old_items = self.items@;
        assert forall|i: int| p <= i < old_items.len() implies #[trigger] old_items[i].spec_execute_at()
            > t by {
            assert(old_items[p as int].spec_execute_at() > t);
            if i > p {
                assert(old_items[p as int].spec_execute_at() <= old_items[i].spec_execute_at());
            }
        }
        let mut items = Vec::new();
        std::mem::swap(&mut items, &mut self.items);
        items.insert(p, item);
        let ghost new_items = items@;
        assert(new_items == old_items.insert(p as int, item));
        assert(sorted_by_time(new_items)) by {
            assert forall|i: int, j: int| 0 <= i < j < new_items.len() implies #[trigger] new_items[i].spec_execute_at()
                <= #[trigger] new_items[j].spec_execute_at() by {
                if j < p {
                } else if j == p {
                } else if i < p {
                    assert(old_items[j - 1].spec_execute_at() > t);
                } else if i == p {
                } else {
                    assert(old_items[i - 1].spec_execute_at() <= old_items[j - 1].spec_execute_at());
                }
            }
        }
        self.items = items;
        assert(inserted_by_time(old_items, self.items@, item));
        match self.capacity {
            Some(cap) => {
                if self.items.len() == cap {
                    QueuePushStatus::PushedButFull
                } else {
                    QueuePushStatus::Pushed
                }
            },
            None => QueuePushStatus::Pushed,
        }
    }

    /// Pops every item that is ready at `now`, from the front, stopping at the first item that is
    /// not ready.
    pub fn pop_ready(&mut self, now: u64) -> (r: Vec<T>)
        ensures
            final(self).capacity() == old(self).capacity(),
            old(self).items() == r@ + final(self).items(),
            forall|i: int| 0 <= i < r@.len() ==> #[trigger] r@[i].spec_ready(now),
            final(self).items().len() > 0 ==> !final(self).items()[0].spec_ready(now),
            sorted_by_time(final(self).items()),
            sorted_by_time(r@),
    {
        proof {
            use_type_invariant(&*self);
        }
        let ghost initial = self.items@;
        let mut ready: Vec<T> = Vec::new();
        let mut items = Vec::new();
        std::mem::swap(&mut items, &mut self.items);
        let mut stop = false;
        while !stop && items.len() > 0
            invariant
                initial == ready@ + items@,
                forall|i: int| 0 <= i < ready@.len() ==> #[trigger] ready@[i].spec_ready(now),
                stop ==> items@.len() > 0 && !items@[0].spec_ready(now),
            decreases items@.len(), if stop { 0int } else { 1int },
        {
            if items[0].ready(now) {
                let x = items.remove(0);
                ready.push(x);
                assert(initial =~= ready@ + items@);
            } else {
                stop = true;
            }
        }
        assert(sorted_by_time(items@)) by {
            assert forall|i: int, j: int| 0 <= i < j < items@.len() implies #[trigger] items@[i].spec_execute_at()
                <= #[trigger] items@[j].spec_execute_at() by {
                assert(items@[i] == initial[ready@.len() + i]);
                assert(items@[j] == initial[ready@.len() + j]);
            }
        }
        self.items = items;
        assert forall|i: int, j: int| 0 <= i < j < ready@.len() implies #[trigger] ready@[i].spec_execute_at()
            <= #[trigger] ready@[j].spec_execute_at() by {
            assert(ready@[i] == initial[i]);
            assert(ready@[j] == initial[j]);
        }
        ready
    }

    /// Cancels every scheduled item.
    pub fn cancel(&mut self)
        ensures
            final(self).capacity() == old(self).capacity(),
            final(self).items() == Seq::<T>::empty(),
    {
        self.items = Vec::new();
    }

    /// Whether the queue is empty.
    pub fn is_empty(&self) -> (r: bool)
        ensures
            r == (self.items().len() == 0),
    {
        self.items.len() == 0
    }

    /// The capacity the queue was made with.
    pub fn get_capacity(&self) -> (r: Option<usize>)
        ensures
            r == self.capacity(),
    {
        self.capacity
    }

    /// The number of queued items, never more than the capacity.
    pub fn len(&self) -> (r: usize)
        ensures
            r == self.items().len(),
            self.capacity() matches Some(c) ==> r <= c,
            sorted_by_time(self.items()),
    {
        proof {
            use_type_invariant(self);
        }
        self.items.len()
    }

    /// The execution time of the soonest item, if there is one.
    pub fn peek_soonest_instant(&self) -> (r: Option<u64>)
        ensures
            self.items().len() == 0 ==> r.is_none(),
            self.items().len() > 0 ==> r == Some(self.items()[0].spec_execute_at()),
    {
        if self.items.len() == 0 {
            None
        } else {
            Some(self.items[0].execute_at())
        }
    }
}

} // verus!
