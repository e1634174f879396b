//! The bounded queue that hands what was read to the thread that shows
//! it, in the order of arrival.

use vstd::prelude::*;
use std::collections::VecDeque;

verus! {

/// What offering `item` to a queue of this capacity does: the item joins
/// the end where there is room; where there is none, the queue stays as
/// it is and the item is handed back.
pub open spec fn offered<T>(q: Seq<T>, capacity: nat, item: T) -> (Seq<T>, Option<T>) {
    if q.len() < capacity {
        (q.push(item), None)
    } else {
        (q, Some(item))
    }
}

/// What taking from a queue does: the first item leaves it, if there is
/// one.
pub open spec fn taken<T>(q: Seq<T>) -> (Seq<T>, Option<T>) {
    if q.len() > 0 {
        (q.drop_first(), Some(q[0]))
    } else {
        (q, None)
    }
}

/// The queue after `k` items were taken from it.
pub open spec fn after_takes<T>(q: Seq<T>, k: nat) -> Seq<T>
    decreases k,
{
    if k == 0 {
        q
    } else {
        taken(after_takes(q, (k - 1) as nat)).0
    }
}

/// Items leave the queue in the order in which they joined it: after `k`
/// items were taken, the next one taken is the item at index `k`.
pub proof fn lemma_arrival_order<T>(q: Seq<T>, k: nat)
    requires
        k < q.len(),
    ensures
        after_takes(q, k) == q.skip(k as int),
        taken(after_takes(q, k)).1 == Some(q[k as int]),
    decreases k,
{
    if k == 0 {
        assert(q.skip(0) =~= q);
    } else {
        lemma_arrival_order(q, (k - 1) as nat);
        assert(q.skip(k - 1).drop_first() =~= q.skip(k as int));
    }
}

/// An item that was offered and accepted is taken after all that waited
/// before it, and not before.
pub proof fn lemma_offered_waits_its_turn<T>(q: Seq<T>, capacity: nat, item: T)
    requires
        q.len() < capacity,
    ensures
        taken(after_takes(offered(q, capacity, item).0, q.len())).1 == Some(item),
        forall|k: nat|
            k < q.len() ==> taken(#[trigger] after_takes(offered(q, capacity, item).0, k)).1
                == Some(q[k as int]),
{
    let longer = offered(q, capacity, item).0;
    lemma_arrival_order(longer, q.len());
    assert forall|k: nat| k < q.len() implies taken(#[trigger] after_takes(longer, k)).1 == Some(
        q[k as int],
    ) by {
        lemma_arrival_order(longer, k);
    }
}

/// A queue that holds no more than its capacity.
pub struct Handoff<T> {
    items: VecDeque<T>,
    capacity: usize,
}

impl<T> View for Handoff<T> {
    type V = Seq<T>;

    closed spec fn view(&self) -> Seq<T> {
        self.items@
    }
}

impl<T> Handoff<T> {
    /// How many items the queue holds at most.
    pub closed spec fn capacity(&self) -> nat {
        self.capacity as nat
    }

    /// The queue holds no more than its capacity.
    pub closed spec fn wf(&self) -> bool {
        self.items@.len() <= self.capacity
    }

    /// An empty queue.
    pub fn new(capacity: usize) -> (q: Self)
        ensures
            q.wf(),
            q@ == Seq::<T>::empty(),
            q.capacity() == capacity,
    {
        Handoff { items: VecDeque::new(), capacity }
    }

    /// The number of items that wait.
    pub fn len(&self) -> (n: usize)
        ensures
            n == self@.len(),
    {
        self.items.len()
    }

    /// Whether nothing waits.
    pub fn is_empty(&self) -> (r: bool)
        ensures
            r == (self@.len() == 0),
    {
        self.items.len() == 0
    }

    /// Whether there is no room for another item.
    pub fn is_full(&self) -> (r: bool)
        requires
            self.wf(),
        ensures
            r == (self@.len() >= self.capacity()),
    {
        self.items.len() >= self.capacity
    }

    /// Offers an item. Where the queue is full the item comes back.
    pub fn offer(&mut self, item: T) -> (r: Result<(), T>)
        requires
            old(self).wf(),
        ensures
            final(self).wf(),
            final(self).capacity() == old(self).capacity(),
            final(self)@ == offered(old(self)@, old(self).capacity(), item).0,
            match r {
                Ok(_) => offered(old(self)@, old(self).capacity(), item).1 is None,
                Err(back) => offered(old(self)@, old(self).capacity(), item).1 == Some(back),
            },
    {
        if self.items.len() < self.capacity {
            self.items.push_back(item);
            Ok(())
        } else {
            Err(item)
        }
    }

    /// Takes the item that waited longest.
    pub fn take(&mut self) -> (r: Option<T>)
        requires
            old(self).wf(),
        ensures
            final(self).wf(),
            final(self).capacity() == old(self).capacity(),
            (final(self)@, r) == taken(old(self)@),
    {
        let r = self.items.pop_front();
        proof {
            if old(self)@.len() > 0 {
                assert(old(self)@.subrange(1, old(self)@.len() as int) =~= old(
                    self,
                )@.drop_first());
            }
        }
        r
    }

    /// Drops what waits, as when the session ends. Returns how many
    /// items there were.
    pub fn discard(&mut self) -> (n: usize)
        requires
            old(self).wf(),
        ensures
            final(self).wf(),
            final(self).capacity() == old(self).capacity(),
            n == old(self)@.len(),
            final(self)@ == Seq::<T>::empty(),
    {
        let n: usize = self.items.len();
        self.items.clear();
        n
    }
}

} // verus!
