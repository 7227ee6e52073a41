use vstd::prelude::*;

verus! {

/// Error returned by [`RingBuffer::push`] when the buffer is full.
#[derive(Debug, PartialEq, Eq, Structural, Clone, Copy)]
pub enum RingBufferError {
    PushAtMaxCapacity,
}

/// A fixed-capacity FIFO queue stored in an array of `CAPACITY` slots.
///
/// Its model (`view`) is the sequence of queued values, oldest first.
#[derive(Copy)]
pub struct RingBuffer<T: Copy, const CAPACITY: usize> {
    head: usize,
    tail: usize,
    buffer: [Option<T>; CAPACITY],
    size: usize,
}

/// The slot `i` places after `tail` in a ring of `cap` slots (for `i <= cap`).
spec fn ring_slot(tail: int, i: int, cap: int) -> int {
    if tail + i < cap {
        tail + i
    } else {
        tail + i - cap
    }
}

/// Stepping an index forward by one modulo `m` wraps to zero only past the last slot.
proof fn lemma_wrap_successor(x: int, m: int)
    requires
        0 <= x < m,
    ensures
        (x + 1) % m == if x + 1 < m { x + 1 } else { 0 },
{
    if x + 1 < m {
        vstd::arithmetic::div_mod::lemma_small_mod((x + 1) as nat, m as nat);
    } else {
        vstd::arithmetic::div_mod::lemma_mod_self_0(m);
    }
}

impl<T: Copy, const CAPACITY: usize> RingBuffer<T, CAPACITY> {
    /// The array slot that holds the `i`-th oldest element.
    spec fn slot(self, i: int) -> int {
        ring_slot(self.tail as int, i, CAPACITY as int)
    }

    /// The buffer's layout is consistent: it holds at most `CAPACITY` values, `tail`
    /// and `head` are slots of the array, `head` is `size` slots after `tail` around the
    /// ring, and each of the `size` slots from `tail` on holds a value. Every buffer
    /// keeps this at all times, so a pop never reads an empty slot.
    #[verifier::type_invariant]
    pub closed spec fn well_formed(self) -> bool {
        &&& self.size <= CAPACITY
        &&& CAPACITY == 0 ==> self.head == 0 && self.tail == 0
        &&& CAPACITY > 0 ==> {
            &&& self.tail < CAPACITY
            &&& self.head < CAPACITY
            &&& self.head == self.slot(self.size as int)
        }
        &&& forall|i: int| 0 <= i < self.size ==> (#[trigger] self.buffer@[self.slot(i)]) is Some
    }

    /// A well-formed buffer never holds more than `CAPACITY` values.
    pub proof fn lemma_well_formed_bounded(self)
        requires
            self.well_formed(),
        ensures
            self@.len() <= CAPACITY,
    {
    }

    /// The queued values, oldest first.
    pub closed spec fn view(self) -> Seq<T> {
        Seq::new(self.size as nat, |i: int| self.buffer@[self.slot(i)]->0)
    }

    /// An empty buffer.
    pub fn new() -> (rb: Self)
        ensures
            rb@ == Seq::<T>::empty(),
            rb.well_formed(),
    {
        let rb = RingBuffer { head: 0, tail: 0, buffer: [None; CAPACITY], size: 0 };
        assert(rb@ =~= Seq::<T>::empty());
        rb
    }

    /// Appends `value` at the back, unless the buffer already holds `CAPACITY` values.
    pub fn push(&mut self, value: T) -> (r: Result<(), RingBufferError>)
        ensures
            old(self).well_formed(),
            final(self).well_formed(),
            old(self)@.len() <= CAPACITY,
            final(self)@.len() <= CAPACITY,
            old(self)@.len() < CAPACITY ==> r == Ok::<(), RingBufferError>(())
                && final(self)@ == old(self)@.push(value),
            old(self)@.len() >= CAPACITY ==> r == Err::<(), RingBufferError>(
                RingBufferError::PushAtMaxCapacity,
            ) && final(self)@ == old(self)@,
    {
        proof {
            use_type_invariant(&*self);
        }
        if self.size >= CAPACITY {
            return Err(RingBufferError::PushAtMaxCapacity);
        }
        let ghost old_view = self@;
        let mut buffer = self.buffer;
        buffer[self.head] = Some(value);
        proof {
            lemma_wrap_successor(self.head as int, CAPACITY as int);
        }
        let new_head = (self.head + 1) % CAPACITY;
        let new_size = self.size + 1;
        assert(new_head == ring_slot(self.tail as int, new_size as int, CAPACITY as int));
        assert forall|i: int| 0 <= i < new_size implies (#[trigger] buffer@[ring_slot(
            self.tail as int,
            i,
            CAPACITY as int,
        )]) is Some by {
            if i < self.size {
                assert(self.buffer@[self.slot(i)] is Some);
            }
        }
        let next = RingBuffer { head: new_head, tail: self.tail, buffer, size: new_size };
        assert(next@ =~= old_view.push(value)) by {
            assert forall|i: int| 0 <= i < self.size implies next@[i] == old_view[i] by {
                assert(self.slot(i) != self.head as int);
            }
        }
        *self = next;
        Ok(())
    }

    /// Removes and returns the oldest value, or `None` when the buffer is empty.
    pub fn pop(&mut self) -> (r: Option<T>)
        ensures
            old(self).well_formed(),
            final(self).well_formed(),
            old(self)@.len() <= CAPACITY,
            final(self)@.len() <= CAPACITY,
            old(self)@.len() == 0 ==> r is None && final(self)@ == old(self)@,
            old(self)@.len() > 0 ==> r == Some(old(self)@[0])
                && final(self)@ == old(self)@.drop_first(),
    {
        proof {
            use_type_invariant(&*self);
        }
        if self.size == 0 {
            return None;
        }
        let ghost old_view = self@;
        assert(self.buffer@[self.slot(0)] is Some);
        let res = match self.buffer[self.tail] {
            Some(v) => v,
            None => {
                proof {
                    assert(false);
                }
                return None;
            },
        };
        proof {
            lemma_wrap_successor(self.tail as int, CAPACITY as int);
        }
        let new_tail = (self.tail + 1) % CAPACITY;
        let new_size = self.size - 1;
        assert(self.head == ring_slot(new_tail as int, new_size as int, CAPACITY as int));
        assert forall|i: int| 0 <= i < new_size implies (#[trigger] self.buffer@[ring_slot(
            new_tail as int,
            i,
            CAPACITY as int,
        )]) is Some by {
            assert(ring_slot(new_tail as int, i, CAPACITY as int) == self.slot(i + 1));
            assert(self.buffer@[self.slot(i + 1)] is Some);
        }
        let next = RingBuffer { head: self.head, tail: new_tail, buffer: self.buffer, size: new_size };
        assert(next@ =~= old_view.drop_first()) by {
            assert forall|i: int| 0 <= i < next.size implies next@[i] == old_view[i + 1] by {
                assert(next.slot(i) == self.slot(i + 1));
            }
        }
        *self = next;
        Some(res)
    }

    /// The number of queued values.
    pub fn get_size(&self) -> (r: usize)
        ensures
            r == self@.len(),
            r <= CAPACITY,
            self.well_formed(),
    {
        proof {
            use_type_invariant(self);
        }
        self.size
    }
}

/// First in, first out: on a non-empty buffer, pushing and then popping gives the same
/// value and the same contents as popping and then pushing, so a pushed value leaves
/// only after every value queued before it.
pub proof fn lemma_fifo<T>(contents: Seq<T>, value: T)
    requires
        contents.len() > 0,
    ensures
        contents.push(value)[0] == contents[0],
        contents.push(value).drop_first() == contents.drop_first().push(value),
{
    assert(contents.push(value).drop_first() =~= contents.drop_first().push(value));
}

impl<T: Copy, const CAPACITY: usize> Clone for RingBuffer<T, CAPACITY> {
    fn clone(&self) -> (r: Self)
        ensures
            r == *self,
    {
        *self
    }
}

} // verus!
