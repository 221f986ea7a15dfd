use vstd::prelude::*;

verus! {

/// A fixed-capacity permit pool bounding how many traversal and rename
/// tasks run at once. The capacity is fixed at construction; at all times
/// the permits out on loan never exceed it.
pub struct PermitPool {
    capacity: usize,
    available: usize,
}

impl PermitPool {
    /// The pool never hands out more permits than its capacity.
    pub open spec fn wf(&self) -> bool {
        self.spec_available() <= self.spec_capacity()
    }

    pub closed spec fn spec_capacity(&self) -> usize {
        self.capacity
    }

    pub closed spec fn spec_available(&self) -> usize {
        self.available
    }

    /// Permits currently on loan.
    pub open spec fn in_use(&self) -> int {
        self.spec_capacity() - self.spec_available()
    }

    pub fn new(capacity: usize) -> (p: PermitPool)
        ensures
            p.wf(),
            p.spec_capacity() == capacity,
            p.spec_available() == capacity,
            p.in_use() == 0,
    {
        PermitPool { capacity, available: capacity }
    }

    pub fn capacity(&self) -> (r: usize)
        ensures
            r == self.spec_capacity(),
    {
        self.capacity
    }

    pub fn available(&self) -> (r: usize)
        ensures
            r == self.spec_available(),
    {
        self.available
    }

    /// Take one permit if any is free. Succeeds exactly when a permit is
    /// available; a caller that must wait retries after a release.
    pub fn try_acquire(&mut self) -> (r: bool)
        requires
            old(self).wf(),
        ensures
            final(self).wf(),
            final(self).spec_capacity() == old(self).spec_capacity(),
            r == (old(self).spec_available() > 0),
            r ==> final(self).spec_available() == old(self).spec_available() - 1,
            !r ==> final(self).spec_available() == old(self).spec_available(),
    {
        if self.available > 0 {
            self.available = self.available - 1;
            true
        } else {
            false
        }
    }

    /// Return one permit. Only a permit that was taken can come back, so
    /// the pool never exceeds its capacity.
    pub fn release(&mut self)
        requires
            old(self).wf(),
            old(self).in_use() > 0,
        ensures
            final(self).wf(),
            final(self).spec_capacity() == old(self).spec_capacity(),
            final(self).spec_available() == old(self).spec_available() + 1,
    {
        self.available = self.available + 1;
    }
}

} // verus!
