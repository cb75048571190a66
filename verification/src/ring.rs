//! Fixed-capacity ring structures: the input history of the framer and the
//! additive output queue of the overlap-add synthesizer.
//!
//! Both are generic in the sample type, so that the same verified index logic
//! serves whatever number type the signal path is built on.

use vstd::prelude::*;

verus! {

/// The index after `index` in a ring of `capacity` cells.
pub fn wrap_next(index: usize, capacity: usize) -> (next: usize)
    requires
        index < usize::MAX,
    ensures
        next == if index + 1 >= capacity { 0 } else { index + 1 },
{
    let i: usize = index + 1;
    if i >= capacity {
        0
    } else {
        i
    }
}

/// Physical cell of logical position `i`, counted from physical cell `origin`.
pub open spec fn ring_cell(origin: int, i: int, capacity: int) -> int {
    if origin + i >= capacity {
        origin + i - capacity
    } else {
        origin + i
    }
}

/// The cells of a ring, read once around from physical cell `origin`.
pub open spec fn ring_view<T>(buf: Seq<T>, origin: int) -> Seq<T> {
    Seq::new(buf.len(), |i: int| buf[ring_cell(origin, i, buf.len() as int)])
}

/// Fixed-capacity ring of the most recent `capacity` samples.
pub struct CircularBuffer<T> {
    head: usize,
    buf: Vec<T>,
}

impl<T: Copy> CircularBuffer<T> {
    /// The head is a cell of the ring (or zero in an empty ring).
    pub closed spec fn wf(&self) -> bool {
        &&& self.buf@.len() == 0 ==> self.head == 0
        &&& self.buf@.len() > 0 ==> self.head < self.buf@.len()
    }

    /// The stored samples, oldest first.
    pub closed spec fn view(&self) -> Seq<T> {
        ring_view(self.buf@, if self.head + 1 >= self.buf@.len() { 0 } else { self.head + 1 })
    }

    /// A ring of `capacity` samples, all equal to `fill`.
    pub fn new(capacity: usize, fill: T) -> (ring: Self)
        ensures
            ring.wf(),
            ring@ == Seq::new(capacity as nat, |i: int| fill),
    {
        let mut buf: Vec<T> = Vec::with_capacity(capacity);
        let mut i: usize = 0;
        while i < capacity
            invariant
                i <= capacity,
                buf@ == Seq::new(i as nat, |k: int| fill),
            decreases capacity - i,
        {
            buf.push(fill);
            i = i + 1;
        }
        CircularBuffer { head: 0, buf }
    }

    /// Add the newest sample; the oldest one leaves.
    pub fn push(&mut self, value: T)
        requires
            old(self).wf(),
            old(self)@.len() > 0,
        ensures
            final(self).wf(),
            final(self)@ == old(self)@.drop_first().push(value),
    {
        self.head = wrap_next(self.head, self.buf.len());
        self.buf[self.head] = value;
    }

    /// Copy oldest..newest into `dst`, as far as both reach.
    pub fn copy_all(&self, dst: &mut [T])
        requires
            self.wf(),
        ensures
            final(dst)@.len() == old(dst)@.len(),
            forall|i: int| 0 <= i < old(dst)@.len() ==> #[trigger] final(dst)@[i] == (
                if i < self@.len() { self@[i] } else { old(dst)@[i] }),
    {
        let cap: usize = self.buf.len();
        let ghost before = dst@;
        let mut index: usize = self.head;
        let mut i: usize = 0;
        while i < cap && i < dst.len()
            invariant
                self.wf(),
                cap == self.buf@.len(),
                i <= cap,
                i <= dst@.len(),
                dst@.len() == before.len(),
                cap > 0 ==> index < cap,
                cap > 0 ==> index == ring_cell(self.head as int, i as int, cap as int),
                forall|k: int| 0 <= k < before.len() ==> #[trigger] dst@[k] == (
                    if k < i { self@[k] } else { before[k] }),
            decreases cap - i,
        {
            index = wrap_next(index, cap);
            assert(self.buf@[index as int] == self@[i as int]);
            dst[i] = self.buf[index];
            i = i + 1;
        }
    }
}

/// Additive output ring used by the overlap-add synthesizer.
///
/// `remaining` samples are still to come; every cell beyond them holds the
/// sample type's zero.
pub struct CircularQueue<T> {
    head: usize,
    remaining: usize,
    zero: T,
    buf: Vec<T>,
}

impl<T: Copy> CircularQueue<T> {
    /// The head is a cell of the ring, the pending samples fit in it, and the
    /// cells beyond the pending samples are zero.
    pub closed spec fn wf(&self) -> bool {
        &&& self.buf@.len() == 0 ==> self.head == 0
        &&& self.buf@.len() > 0 ==> self.head < self.buf@.len()
        &&& self.remaining <= self.buf@.len()
        &&& forall|i: int|
            self.remaining <= i < self.buf@.len() ==> #[trigger] self@[i] == self.zero
    }

    /// All cells of the queue, the next sample to leave first.
    pub closed spec fn view(&self) -> Seq<T> {
        ring_view(self.buf@, self.head as int)
    }

    /// How many samples are pending.
    pub closed spec fn pending(&self) -> nat {
        self.remaining as nat
    }

    /// The sample that an empty cell holds.
    pub closed spec fn silence(&self) -> T {
        self.zero
    }

    /// No more samples are pending than the queue has cells, and the cells beyond
    /// the pending ones are silent.
    pub proof fn lemma_pending(&self)
        requires
            self.wf(),
        ensures
            self.pending() <= self@.len(),
            forall|i: int|
                self.pending() <= i < self@.len() ==> #[trigger] self@[i] == self.silence(),
    {
    }

    /// An empty queue with room for `capacity` samples.
    pub fn new(capacity: usize, zero: T) -> (queue: Self)
        ensures
            queue.wf(),
            queue.pending() == 0,
            queue.silence() == zero,
            queue@ == Seq::new(capacity as nat, |i: int| zero),
    {
        let mut buf: Vec<T> = Vec::with_capacity(capacity);
        let mut i: usize = 0;
        while i < capacity
            invariant
                i <= capacity,
                buf@ == Seq::new(i as nat, |k: int| zero),
            decreases capacity - i,
        {
            buf.push(zero);
            i = i + 1;
        }
        let queue = CircularQueue { head: 0, remaining: 0, zero, buf };
        assert(queue@ =~= Seq::new(capacity as nat, |i: int| zero));
        queue
    }

    /// The number of pending samples.
    pub fn remaining(&self) -> (n: usize)
        ensures
            n == self.pending(),
    {
        self.remaining
    }

    /// Whether `after` is what `before` becomes when `samples` are added to it,
    /// the first one to the first cell: a cell that meets one sample holds what
    /// `plus` makes of the two, and a cell that meets a second one holds that
    /// second sample alone, the first having left the ring.
    pub open spec fn overlapped<A: Fn(T, T) -> T>(
        before: Seq<T>,
        samples: Seq<T>,
        after: Seq<T>,
        plus: A,
    ) -> bool {
        let lost = if samples.len() > before.len() { samples.len() - before.len() } else { 0 };
        &&& after.len() == before.len()
        &&& forall|j: int| #![trigger after[j]]
            0 <= j < after.len() ==> if lost + j >= before.len() {
                after[j] == samples[lost + j]
            } else if lost + j < samples.len() {
                call_ensures(plus, (before[lost + j], samples[lost + j]), after[j])
            } else {
                after[j] == before[j]
            }
    }

    /// Add `samples` into the queue starting at the current head (overlap-add),
    /// `plus` being the addition of the sample type. Samples beyond the capacity
    /// push the oldest ones out.
    pub fn push_additive<A: Fn(T, T) -> T>(&mut self, samples: &[T], plus: &A)
        requires
            old(self).wf(),
            old(self)@.len() > 0 || samples@.len() == 0,
            forall|a: T, b: T| call_requires(*plus, (a, b)),
        ensures
            final(self).wf(),
            final(self).silence() == old(self).silence(),
            Self::overlapped(old(self)@, samples@, final(self)@, *plus),
            final(self).pending() == {
                let longer = if samples@.len() > old(self).pending() {
                    samples@.len()
                } else {
                    old(self).pending()
                };
                if longer > old(self)@.len() {
                    old(self)@.len()
                } else {
                    longer
                }
            },
    {
        let cap: usize = self.buf.len();
        let size: usize = samples.len();
        let ghost before = self@;
        let ghost head0 = self.head as int;
        let mut index: usize = self.head;
        let mut i: usize = 0;
        while i < size
            invariant
                cap == self.buf@.len(),
                size == samples@.len(),
                before.len() == cap,
                before == ring_view(old(self).buf@, head0),
                head0 == old(self).head,
                self.zero == old(self).zero,
                self.remaining == old(self).remaining,
                cap > 0 || size == 0,
                i <= size,
                cap > 0 ==> self.head < cap && index < cap && head0 < cap,
                cap == 0 ==> self.head == 0,
                i <= cap ==> self.head == head0,
                i <= cap && cap > 0 ==> index == ring_cell(head0, if i == cap { 0 } else { i as int }, cap as int),
                i > cap ==> index == self.head,
                forall|a: T, b: T| call_requires(*plus, (a, b)),
                Self::overlapped(before, samples@.take(i as int), self@, *plus),
            decreases size - i,
        {
            let ghost was = self@;
            let ghost done = samples@.take(i as int);
            if i >= cap {
                self.buf[index] = samples[i];
                self.head = wrap_next(self.head, cap);
                assert forall|j: int| 0 <= j < cap implies #[trigger] self@[j] == (
                    if j + 1 < cap { was[j + 1] } else { samples@[i as int] }) by {}
            } else {
                assert(self.buf@[index as int] == was[i as int]);
                let sum: T = plus(self.buf[index], samples[i]);
                self.buf[index] = sum;
                assert(self@ =~= was.update(i as int, sum));
            }
            index = wrap_next(index, cap);
            i = i + 1;
            proof {
                let now = samples@.take(i as int);
                assert forall|j: int| #![trigger self@[j]] 0 <= j < cap implies {
                    let lost = if now.len() > cap { now.len() - cap } else { 0 };
                    if lost + j >= cap {
                        self@[j] == now[lost + j]
                    } else if lost + j < now.len() {
                        call_ensures(*plus, (before[lost + j], now[lost + j]), self@[j])
                    } else {
                        self@[j] == before[j]
                    }
                } by {
                    let lost = if now.len() > cap { now.len() - cap } else { 0 };
                    if i > cap && j + 1 < cap {
                        assert(self@[j] == was[j + 1]);
                        assert(now[lost + j] == done[lost + j]);
                    } else if i <= cap {
                        assert(was[j] == was[j]);
                        if j < i - 1 {
                            assert(now[j] == done[j]);
                        }
                    }
                }
            }
        }
        assert(samples@.take(size as int) =~= samples@);
        if size > self.remaining {
            self.remaining = size;
        }
        if self.remaining > cap {
            self.remaining = cap;
        }
        proof {
            assert forall|k: int| self.remaining <= k < self.buf@.len() implies #[trigger] self@[k]
                == self.zero by {
                assert(before[k] == old(self)@[k]);
            }
        }
    }

    /// Take the next sample; an empty queue gives silence.
    pub fn pop(&mut self) -> (value: T)
        requires
            old(self).wf(),
        ensures
            final(self).wf(),
            final(self).silence() == old(self).silence(),
            old(self).pending() == 0 ==> {
                &&& value == old(self).silence()
                &&& final(self)@ == old(self)@
                &&& final(self).pending() == 0
            },
            old(self).pending() > 0 ==> {
                &&& value == old(self)@[0]
                &&& final(self)@ == old(self)@.drop_first().push(old(self).silence())
                &&& final(self).pending() == old(self).pending() - 1
            },
    {
        if self.remaining == 0 {
            return self.zero;
        }
        let value: T = self.buf[self.head];
        self.buf[self.head] = self.zero;
        self.head = wrap_next(self.head, self.buf.len());
        self.remaining = self.remaining - 1;
        assert(self@ =~= old(self)@.drop_first().push(old(self).zero));
        value
    }
}

// --- laws -------------------------------------------------------------------

/// A history after further samples have been pushed, one by one.
pub open spec fn pushed_all<T>(history: Seq<T>, samples: Seq<T>) -> Seq<T>
    decreases samples.len(),
{
    if samples.len() == 0 {
        history
    } else {
        pushed_all(history, samples.drop_last()).drop_first().push(samples.last())
    }
}

/// A ring holds the most recent samples: whatever is pushed, what it then holds
/// is the end of its history and all that was pushed.
pub proof fn lemma_ring_keeps_most_recent<T>(history: Seq<T>, samples: Seq<T>)
    requires
        history.len() > 0,
    ensures
        pushed_all(history, samples) == (history + samples).skip(samples.len() as int),
    decreases samples.len(),
{
    if samples.len() > 0 {
        lemma_ring_keeps_most_recent(history, samples.drop_last());
        let before = (history + samples.drop_last()).skip(samples.len() - 1);
        assert(before.drop_first().push(samples.last()) =~= (history + samples).skip(
            samples.len() as int,
        ));
    } else {
        assert((history + samples).skip(0) =~= history);
    }
}

/// A queue after `n` samples have left it.
pub open spec fn emptied<T>(samples: Seq<T>, zero: T, n: int) -> Seq<T>
    decreases n,
{
    if n <= 0 {
        samples
    } else {
        emptied(samples, zero, n - 1).drop_first().push(zero)
    }
}

/// Every sample that leaves makes room for silence: samples leave in order, and
/// after all cells have been read nothing but silence is left.
pub proof fn lemma_queue_empties<T>(samples: Seq<T>, zero: T, n: int)
    requires
        0 <= n <= samples.len(),
        samples.len() > 0,
    ensures
        emptied(samples, zero, n).len() == samples.len(),
        forall|i: int|
            0 <= i < samples.len() ==> #[trigger] emptied(samples, zero, n)[i] == (if i + n
                < samples.len() {
                samples[i + n]
            } else {
                zero
            }),
    decreases n,
{
    if n > 0 {
        lemma_queue_empties(samples, zero, n - 1);
    }
}

/// Samples that fit are added one to a cell, the first to the first, and leave the cells after
/// them alone; of more samples than there are cells only the last stay that fit, each where it
/// would have been had the queue been that much longer, and those that meet no other are there
/// alone.
pub proof fn lemma_overlap<T: Copy, A: Fn(T, T) -> T>(
    before: Seq<T>,
    samples: Seq<T>,
    after: Seq<T>,
    plus: A,
    j: int,
)
    requires
        CircularQueue::<T>::overlapped(before, samples, after, plus),
        0 <= j < before.len(),
    ensures
        after.len() == before.len(),
        j < samples.len() <= before.len() ==> call_ensures(plus, (before[j], samples[j]), after[j]),
        samples.len() <= j ==> after[j] == before[j],
        samples.len() >= 2 * before.len() ==> after[j] == samples[samples.len() - before.len() + j],
        before.len() <= samples.len() < 2 * before.len() && j >= 2 * before.len() - samples.len()
            ==> after[j] == samples[samples.len() - before.len() + j],
        before.len() <= samples.len() < 2 * before.len() && j < 2 * before.len() - samples.len()
            ==> call_ensures(
            plus,
            (
                before[samples.len() - before.len() + j],
                samples[samples.len() - before.len() + j],
            ),
            after[j],
        ),
{
    assert(after[j] == after[j]);
}

} // verus!
