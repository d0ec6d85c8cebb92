//! A bounded queue in a fixed array.

use vstd::prelude::*;

verus! {

/// A queue of at most `N` items, kept in a ring of `N` slots.
#[derive(Debug)]
pub struct Fifo<T: Copy, const N: usize> {
    slots: [T; N],
    head: usize,
    len: usize,
}

/// The slot `i` places after slot `head` on a ring of `n`.
spec fn slot_at(head: int, i: int, n: int) -> int {
    if head + i < n {
        head + i
    } else {
        head + i - n
    }
}

impl<T: Copy, const N: usize> View for Fifo<T, N> {
    type V = Seq<T>;

    /// The items, oldest first.
    closed spec fn view(&self) -> Seq<T> {
        Seq::new(self.len as nat, |i: int| self.slots@[slot_at(self.head as int, i, N as int)])
    }
}

impl<T: Copy, const N: usize> Fifo<T, N> {
    /// The ring's indices are in range.
    pub closed spec fn wf(&self) -> bool {
        &&& self.len <= N
        &&& self.head < N || N == 0
        &&& N + N <= usize::MAX
    }

    /// A queue never holds more than its ring has slots.
    pub proof fn lemma_bounded(&self)
        requires
            self.wf(),
        ensures
            self@.len() <= N,
    {
    }

    /// An empty queue; `empty` fills the unused slots.
    pub fn new(empty: T) -> (fifo: Fifo<T, N>)
        requires
            N + N <= usize::MAX,
        ensures
            fifo.wf(),
            fifo@ == Seq::<T>::empty(),
    {
        let fifo = Fifo { slots: [empty; N], head: 0, len: 0 };
        assert(fifo@ =~= Seq::<T>::empty());
        fifo
    }

    pub fn is_empty(&self) -> (r: bool)
        ensures
            r == (self@.len() == 0),
    {
        self.len == 0
    }

    pub fn is_full(&self) -> (r: bool)
        ensures
            r == (self@.len() == N),
    {
        self.len == N
    }

    /// Appends `v` and says so, or leaves a full queue as it is.
    pub fn push(&mut self, v: T) -> (done: bool)
        requires
            old(self).wf(),
        ensures
            final(self).wf(),
            done == (old(self)@.len() < N),
            final(self)@ == if done {
                old(self)@.push(v)
            } else {
                old(self)@
            },
    {
        if self.len == N {
            return false;
        }
        let idx: usize = (self.head + self.len) % N;
        proof {
            lemma_slot(self.head as int, self.len as int, N as int);
        }
        self.slots[idx] = v;
        self.len += 1;
        proof {
            assert(self@ =~= old(self)@.push(v));
        }
        true
    }

    /// Takes the oldest item out.
    pub fn pop(&mut self) -> (v: Option<T>)
        requires
            old(self).wf(),
        ensures
            final(self).wf(),
            v == if old(self)@.len() == 0 {
                None
            } else {
                Some(old(self)@.first())
            },
            final(self)@ == if old(self)@.len() == 0 {
                old(self)@
            } else {
                old(self)@.drop_first()
            },
    {
        if self.len == 0 {
            return None;
        }
        let v = self.slots[self.head];
        proof {
            lemma_slot(self.head as int, 1, N as int);
        }
        self.head = (self.head + 1) % N;
        self.len -= 1;
        proof {
            assert(self@ =~= old(self)@.drop_first());
        }
        Some(v)
    }

    /// The oldest item, left in place.
    pub fn front(&self) -> (v: Option<&T>)
        requires
            self.wf(),
        ensures
            match v {
                None => self@.len() == 0,
                Some(x) => self@.len() > 0 && *x == self@.first(),
            },
    {
        if self.len == 0 {
            None
        } else {
            Some(&self.slots[self.head])
        }
    }
}

proof fn lemma_slot(head: int, i: int, n: int)
    requires
        0 <= head < n,
        0 <= i <= n,
    ensures
        (head + i) % n == slot_at(head, i, n),
{
    if head + i < n {
        vstd::arithmetic::div_mod::lemma_small_mod((head + i) as nat, n as nat);
    } else {
        vstd::arithmetic::div_mod::lemma_fundamental_div_mod_converse(head + i, n, 1, head + i - n);
    }
}

} // verus!
