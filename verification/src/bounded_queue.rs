use std::collections::VecDeque;
use vstd::prelude::*;

verus! {

/// A queue that remembers only its most recent items: once it holds as many
/// as its bound, each push drops the oldest one.
///
/// Its view is the sequence of the items it holds, oldest first.
#[derive(Debug)]
pub struct BoundedQueue<T> {
    inner: VecDeque<T>,
    bound: usize,
}

impl<T> View for BoundedQueue<T> {
    type V = Seq<T>;

    closed spec fn view(&self) -> Seq<T> {
        self.inner@
    }
}

/// The items of `s` but for the oldest ones, where `s` holds more than `n`.
pub open spec fn tail_of<T>(s: Seq<T>, n: nat) -> Seq<T> {
    if s.len() <= n {
        s
    } else {
        s.subrange(s.len() - n, s.len() as int)
    }
}

impl<T> BoundedQueue<T> {
    /// The bound that the queue was made with.
    pub closed spec fn bound(&self) -> nat {
        self.bound as nat
    }

    /// The most items that the queue ever holds. A queue made with the
    /// bound 0 still keeps the newest item.
    pub open spec fn limit(&self) -> nat {
        if self.bound() == 0 {
            1
        } else {
            self.bound()
        }
    }

    /// No well-formed queue holds more items than its limit.
    pub closed spec fn wf(&self) -> bool {
        self.inner@.len() <= (if self.bound == 0 {
            1
        } else {
            self.bound as int
        })
    }

    /// A well-formed queue stays within its limit.
    pub proof fn lemma_within_limit(&self)
        requires
            self.wf(),
        ensures
            self@.len() <= self.limit(),
    {
    }

    /// A queue without an item, with the bound `bound`.
    pub fn new(bound: usize) -> (q: Self)
        ensures
            q.wf(),
            q@ == Seq::<T>::empty(),
            q.bound() == bound,
    {
        Self { inner: VecDeque::with_capacity(bound), bound }
    }

    /// What `push` leaves of a queue that holds `s` and has the limit
    /// `limit`.
    pub open spec fn pushed(s: Seq<T>, limit: nat, item: T) -> Seq<T> {
        if s.len() >= limit {
            s.drop_first().push(item)
        } else {
            s.push(item)
        }
    }

    /// Appends `item`, and first drops the oldest item if the queue is full.
    pub fn push(&mut self, item: T)
        requires
            old(self).wf(),
        ensures
            final(self).wf(),
            final(self)@ == Self::pushed(old(self)@, old(self).limit(), item),
            final(self).bound() == old(self).bound(),
            final(self)@.len() <= final(self).limit(),
    {
        if self.inner.len() >= self.bound {
            self.inner.pop_front();
        }
        self.inner.push_back(item);
    }

    /// Removes the newest item and returns it.
    pub fn pop_back(&mut self) -> (r: Option<T>)
        requires
            old(self).wf(),
        ensures
            final(self).wf(),
            final(self).bound() == old(self).bound(),
            old(self)@.len() == 0 ==> r is None && final(self)@ == old(self)@,
            old(self)@.len() > 0 ==> r == Some(old(self)@.last()) && final(self)@ == old(
                self,
            )@.drop_last(),
    {
        self.inner.pop_back()
    }

    /// Takes every item out.
    pub fn clear(&mut self)
        ensures
            final(self).wf(),
            final(self)@ == Seq::<T>::empty(),
            final(self).bound() == old(self).bound(),
    {
        self.inner.clear();
    }

    /// The number of items.
    pub fn len(&self) -> (n: usize)
        ensures
            n == self@.len(),
    {
        self.inner.len()
    }

    /// The items themselves, oldest first.
    pub fn inner(&self) -> (r: &VecDeque<T>)
        ensures
            r@ == self@,
    {
        &self.inner
    }

    /// The newest item, if there is one.
    pub fn back(&self) -> (r: Option<&T>)
        ensures
            self@.len() == 0 ==> r is None,
            self@.len() > 0 ==> r == Some(&self@.last()),
    {
        let n = self.inner.len();
        if n == 0 {
            None
        } else {
            Some(&self.inner[n - 1])
        }
    }

    /// The item at `index`, counted from the oldest.
    pub fn get(&self, index: usize) -> (r: &T)
        requires
            index < self@.len(),
        ensures
            *r == self@[index as int],
    {
        &self.inner[index]
    }

    /// The newest `n` items, oldest first; all of them if there are fewer.
    pub fn last_n(&self, n: usize) -> (r: Vec<&T>)
        ensures
            r@.len() == tail_of(self@, n as nat).len(),
            forall|i: int| 0 <= i < r@.len() ==> *r@[i] == tail_of(self@, n as nat)[i],
    {
        let len = self.inner.len();
        let start = if n >= len {
            0
        } else {
            len - n
        };
        let mut out: Vec<&T> = Vec::new();
        let mut i = start;
        while i < len
            invariant
                start <= i <= len,
                len == self.inner@.len(),
                start == (if n >= len {
                    0
                } else {
                    len - n
                }),
                out@.len() == i - start,
                forall|j: int| 0 <= j < out@.len() ==> *out@[j] == self.inner@[start + j],
            decreases len - i,
        {
            out.push(&self.inner[i]);
            i += 1;
        }
        out
    }
}

} // verus!
