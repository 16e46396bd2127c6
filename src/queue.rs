//! The queue between the directory walker and the loading workers: paths
//! pushed in batches, taken from the tail, and a flag that closes it.

use vstd::prelude::*;

verus! {

/// Paths that wait to be read, and whether the walker has finished.
pub struct WorkQueue {
    paths: Vec<Vec<u8>>,
    has_stopped: bool,
}

/// Whether a worker that has just taken a batch should stop after it: the
/// walker has finished and nothing is left.
pub open spec fn done(q: Seq<Vec<u8>>, stopped: bool) -> bool {
    stopped && q.len() == 0
}

impl WorkQueue {
    pub closed spec fn pending(&self) -> Seq<Vec<u8>> {
        self.paths@
    }

    pub closed spec fn stopped(&self) -> bool {
        self.has_stopped
    }

    /// An open, empty queue.
    pub fn new() -> (r: WorkQueue)
        ensures
            r.pending() == Seq::<Vec<u8>>::empty(),
            !r.stopped(),
    {
        WorkQueue { paths: Vec::new(), has_stopped: false }
    }

    /// Whether the walker has finished.
    pub fn is_stopped(&self) -> (r: bool)
        ensures
            r == self.stopped(),
    {
        self.has_stopped
    }

    /// The number of waiting paths.
    pub fn len(&self) -> (r: usize)
        ensures
            r == self.pending().len(),
    {
        self.paths.len()
    }

    /// Whether a worker has to wait: the queue is open and empty.
    pub fn must_wait(&self) -> (r: bool)
        ensures
            r == (!self.stopped() && self.pending().len() == 0),
    {
        !self.has_stopped && self.paths.len() == 0
    }

    /// Moves the last `count` staged paths into the queue, last first.
    pub fn push_batch(&mut self, staged: &mut Vec<Vec<u8>>, count: usize)
        requires
            count <= old(staged)@.len(),
        ensures
            final(staged)@ == old(staged)@.subrange(0, old(staged)@.len() - count),
            final(self).pending() == old(self).pending() + old(staged)@.subrange(
                old(staged)@.len() - count,
                old(staged)@.len() as int,
            ).reverse(),
            final(self).stopped() == old(self).stopped(),
    {
        let ghost s0 = staged@;
        let ghost q0 = self.paths@;
        let ghost n = s0.len();
        let mut i: usize = 0;
        while i < count
            invariant
                i <= count <= n,
                n == s0.len(),
                staged@ == s0.subrange(0, n - i),
                self.paths@ == q0 + s0.subrange(n - i, n as int).reverse(),
                self.has_stopped == old(self).has_stopped,
            decreases count - i,
        {
            let p = staged.pop().unwrap();
            assert(p == s0[n - i - 1]);
            self.paths.push(p);
            assert(s0.subrange(n - i - 1, n as int).reverse() =~= s0.subrange(n - i, n as int).reverse().push(p));
            assert(staged@ =~= s0.subrange(0, n - i - 1));
            i = i + 1;
        }
    }

    /// Moves every staged path into the queue, in order, and closes it.
    pub fn close(&mut self, staged: &mut Vec<Vec<u8>>)
        ensures
            final(staged)@ == Seq::<Vec<u8>>::empty(),
            final(self).pending() == old(self).pending() + old(staged)@,
            final(self).stopped(),
    {
        self.paths.append(staged);
        self.has_stopped = true;
    }

    /// Takes up to `cap` paths from the tail, last first, and says whether
    /// the worker should stop after this batch.
    pub fn take_batch(&mut self, cap: usize) -> (r: (Vec<Vec<u8>>, bool))
        ensures
            ({
                let q = old(self).pending();
                let k = if q.len() < cap {
                    q.len() as int
                } else {
                    cap as int
                };
                &&& r.0@ == q.subrange(q.len() - k, q.len() as int).reverse()
                &&& final(self).pending() == q.subrange(0, q.len() - k)
                &&& final(self).stopped() == old(self).stopped()
                &&& r.1 == done(final(self).pending(), final(self).stopped())
            }),
    {
        let ghost q0 = self.paths@;
        let ghost n = q0.len();
        let k = if self.paths.len() < cap { self.paths.len() } else { cap };
        let mut batch: Vec<Vec<u8>> = Vec::new();
        let mut i: usize = 0;
        while i < k
            invariant
                i <= k <= n,
                n == q0.len(),
                self.paths@ == q0.subrange(0, n - i),
                batch@ == q0.subrange(n - i, n as int).reverse(),
                self.has_stopped == old(self).has_stopped,
            decreases k - i,
        {
            let p = self.paths.pop().unwrap();
            assert(p == q0[n - i - 1]);
            batch.push(p);
            assert(q0.subrange(n - i - 1, n as int).reverse() =~= q0.subrange(n - i, n as int).reverse().push(p));
            assert(self.paths@ =~= q0.subrange(0, n - i - 1));
            i = i + 1;
        }
        let stop = self.has_stopped && self.paths.len() == 0;
        (batch, stop)
    }
}

} // verus!
