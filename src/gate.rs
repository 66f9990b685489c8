use vstd::prelude::*;

verus! {

/// A counting gate: at most `capacity` slots are held at any time. Its single
/// user takes slots without blocking, so a plain counter is enough, and its
/// bound can be proved.
pub struct Gate {
    capacity: usize,
    held: usize,
}

impl Gate {
    pub closed spec fn capacity_spec(&self) -> nat {
        self.capacity as nat
    }

    pub closed spec fn held_spec(&self) -> nat {
        self.held as nat
    }

    /// Some slot can be held, and no more slots are held than exist.
    pub open spec fn wf(&self) -> bool {
        self.capacity_spec() > 0 && self.held_spec() <= self.capacity_spec()
    }

    /// A gate with `capacity` free slots.
    pub fn new(capacity: usize) -> (r: Gate)
        requires
            capacity > 0,
        ensures
            r.wf(),
            r.capacity_spec() == capacity,
            r.held_spec() == 0,
    {
        Gate { capacity, held: 0 }
    }

    pub fn capacity(&self) -> (r: usize)
        ensures
            r == self.capacity_spec(),
    {
        self.capacity
    }

    pub fn held(&self) -> (r: usize)
        ensures
            r == self.held_spec(),
    {
        self.held
    }

    /// Takes a slot when one is free; tells whether it did.
    pub fn try_acquire(&mut self) -> (r: bool)
        requires
            old(self).wf(),
        ensures
            final(self).wf(),
            r == (old(self).held_spec() < old(self).capacity_spec()),
            final(self).capacity_spec() == old(self).capacity_spec(),
            final(self).held_spec() == old(self).held_spec() + if r { 1nat } else { 0nat },
    {
        if self.held < self.capacity {
            self.held = self.held + 1;
            true
        } else {
            false
        }
    }

    /// Gives back a held slot.
    pub fn release(&mut self)
        requires
            old(self).wf(),
            old(self).held_spec() > 0,
        ensures
            final(self).wf(),
            final(self).capacity_spec() == old(self).capacity_spec(),
            final(self).held_spec() == old(self).held_spec() - 1,
    {
        self.held = self.held - 1;
    }
}

} // verus!
