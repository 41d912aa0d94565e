//! A bounded FIFO ring buffer: the preliminary holding pen that gets swept
//! into the chain periodically.

use vstd::arithmetic::div_mod::{
    lemma_add_mod_noop_right, lemma_mod_bound, lemma_mod_equivalence, lemma_small_mod,
};
use vstd::prelude::*;

verus! {

#[derive(Debug, PartialEq, Eq, Structural)]
pub enum FifoError {
    Full,
    Empty,
    Illogical,
}

/// A fixed-capacity queue over a ring of `max_size` slots. Items enter at
/// the writer cursor and leave at the reader cursor, oldest first.
pub struct Fifo<T> where T: Clone {
    pub records: Vec<Option<T>>,
    pub reader: usize,
    pub writer: usize,
    pub length: usize,
    pub max_size: usize,
}

impl<T> Fifo<T> where T: Clone {
    /// The shape every queue keeps: a ring of `max_size` slots, the live
    /// window filled, cursors in range.
    pub open spec fn wf(&self) -> bool {
        &&& self.records@.len() == self.max_size
        &&& self.length <= self.max_size
        &&& (if self.max_size == 0 {
            self.reader == 0 && self.writer == 0
        } else {
            &&& self.reader < self.max_size
            &&& self.writer == (self.reader + self.length) % (self.max_size as int)
        })
        &&& forall|i: int|
            0 <= i < self.length ==> (#[trigger] self.records@[(self.reader + i) % (
            self.max_size as int)]) is Some
    }

    /// The queued items, oldest first.
    pub open spec fn view(&self) -> Seq<T> {
        Seq::new(
            self.length as nat,
            |i: int| self.records@[(self.reader + i) % (self.max_size as int)]->Some_0,
        )
    }

    /// An empty queue over `max_size` slots.
    pub fn new(max_size: usize) -> (q: Fifo<T>)
        ensures
            q.wf(),
            q@.len() == 0,
            q.max_size == max_size,
    {
        let mut records: Vec<Option<T>> = Vec::new();
        let mut i: usize = 0;
        while i < max_size
            invariant
                i <= max_size,
                records@.len() == i,
            decreases max_size - i,
        {
            records.push(None);
            i = i + 1;
        }
        proof {
            if max_size > 0 {
                lemma_small_mod(0, max_size as nat);
            }
        }
        Fifo { records, reader: 0, writer: 0, length: 0, max_size }
    }

    /// Appends an item at the writer cursor; fails with `Full` exactly when
    /// the queue already holds `max_size` items.
    pub fn put(&mut self, r: T) -> (res: Result<(), FifoError>)
        requires
            old(self).wf(),
        ensures
            final(self).wf(),
            final(self).max_size == old(self).max_size,
            res is Err <==> old(self)@.len() == old(self).max_size,
            res matches Err(e) ==> e == FifoError::Full && final(self)@ == old(self)@,
            res is Ok ==> final(self)@ == old(self)@.push(r),
    {
        if self.length == self.max_size {
            return Err(FifoError::Full);
        }
        let ghost pre = *self;
        proof {
            lemma_mod_bound(pre.reader + pre.length, pre.max_size as int);
        }
        self.records[self.writer] = Some(r);
        self.writer = (self.writer + 1) % self.max_size;
        self.length = self.length + 1;
        proof {
            let max = pre.max_size as int;
            lemma_mod_bound(pre.reader + pre.length, max);
            lemma_add_mod_noop_right(1, pre.reader + pre.length, max);
            assert(self.writer == (self.reader + self.length) % max);
            assert forall|i: int| 0 <= i < self.length implies (#[trigger] self.records@[(
            self.reader + i) % max]) is Some by {
                if i < pre.length {
                    lemma_ring_distinct(pre.reader as int, i, pre.length as int, max);
                }
            }
            assert(self@ =~= pre@.push(r)) by {
                assert forall|i: int| 0 <= i < self.length implies self@[i] == pre@.push(r)[i] by {
                    if i < pre.length {
                        lemma_ring_distinct(pre.reader as int, i, pre.length as int, max);
                    }
                }
            }
        }
        Ok(())
    }

    /// Removes and returns the oldest item; fails with `Empty` exactly when
    /// the queue holds nothing.
    pub fn pop(&mut self) -> (res: Result<T, FifoError>)
        requires
            old(self).wf(),
        ensures
            final(self).wf(),
            final(self).max_size == old(self).max_size,
            res is Err <==> old(self)@.len() == 0,
            res matches Err(e) ==> e == FifoError::Empty && final(self)@ == old(self)@,
            res matches Ok(r) ==> r == old(self)@[0] && final(self)@ == old(self)@.drop_first(),
    {
        if self.length == 0 {
            return Err(FifoError::Empty);
        }
        let ghost pre = *self;
        proof {
            lemma_small_mod(pre.reader as nat, pre.max_size as nat);
            assert(pre.records@[(pre.reader + 0) % (pre.max_size as int)] is Some);
        }
        let slot = self.records[self.reader].take();
        self.reader = (self.reader + 1) % self.max_size;
        self.length = self.length - 1;
        proof {
            let max = pre.max_size as int;
            lemma_mod_bound(pre.reader + 1, max);
            assert forall|i: int|
                #![trigger (self.reader + i) % max]
                0 <= i < self.length implies (self.reader + i) % max == (pre.reader + (i + 1))
                % max && (pre.reader + (i + 1)) % max != pre.reader by {
                lemma_add_mod_noop_right(i, pre.reader + 1, max);
                lemma_ring_distinct(pre.reader as int, 0, pre.length - 1, max);
                lemma_small_mod(pre.reader as nat, pre.max_size as nat);
            }
            lemma_add_mod_noop_right(pre.length - 1, pre.reader + 1, max);
            assert(self.writer == (self.reader + self.length) % max);
            assert(self@ =~= pre@.drop_first());
        }
        match slot {
            Some(r) => {
                proof {
                    lemma_small_mod(pre.reader as nat, pre.max_size as nat);
                    assert(r == pre@[0]);
                }
                Ok(r)
            },
            None => Err(FifoError::Illogical),
        }
    }

    /// Drains all items out, oldest first, resetting the queue.
    pub fn drain(&mut self) -> (out: Vec<T>)
        requires
            old(self).wf(),
        ensures
            final(self).wf(),
            final(self).max_size == old(self).max_size,
            out@ == old(self)@,
            final(self)@.len() == 0,
    {
        let mut out: Vec<T> = Vec::new();
        while self.length > 0
            invariant
                self.wf(),
                self.max_size == old(self).max_size,
                out@ + self@ == old(self)@,
            decreases self@.len(),
        {
            let popped = self.pop();
            match popped {
                Ok(r) => {
                    out.push(r);
                    proof {
                        assert(out@ + self@ =~= old(self)@);
                    }
                },
                Err(_) => {
                    proof {
                        assert(false);
                    }
                },
            }
        }
        proof {
            assert(out@ =~= old(self)@);
        }
        out
    }

    /// The number of items queued.
    pub fn length(&self) -> (n: usize)
        ensures
            n == self@.len(),
    {
        self.length
    }
}

/// Offsets `i != j` inside the ring window land on distinct slots.
proof fn lemma_ring_distinct(reader: int, i: int, length: int, max: int)
    requires
        0 < max,
        0 <= reader < max,
        length < max,
        0 <= i <= length,
    ensures
        forall|j: int|
            #![trigger (reader + j) % max]
            0 <= j <= length && j != i ==> (reader + i) % max != (reader + j) % max,
{
    assert forall|j: int|
        #![trigger (reader + j) % max]
        0 <= j <= length && j != i implies (reader + i) % max != (reader + j) % max by {
        if (reader + i) % max == (reader + j) % max {
            let lo = if i < j {
                i
            } else {
                j
            };
            let hi = if i < j {
                j
            } else {
                i
            };
            lemma_mod_equivalence(reader + hi, reader + lo, max);
            assert((hi - lo) % max == 0);
            lemma_small_mod((hi - lo) as nat, max as nat);
        }
    }
}

} // verus!
