//! A free-list over an arbitrary allocator: released resources are reused,
//! most recently released first, before the allocator is asked for a new one.

use vstd::prelude::*;

verus! {

/// A last-released-first reuse stack over an allocator function.
pub struct ResourceStack<T, F> {
    alloc: F,
    stack: Vec<T>,
}

impl<T, F: FnMut() -> T> ResourceStack<T, F> {
    /// The allocator the stack was built with.
    pub closed spec fn allocator(&self) -> F {
        self.alloc
    }

    /// The resources currently held for reuse, oldest first.
    pub closed spec fn stored(&self) -> Seq<T> {
        self.stack@
    }

    /// Create a new resource stack with an allocator.
    pub fn new(alloc: F) -> (r: Self)
        ensures
            r.stored() == Seq::<T>::empty(),
            r.allocator() == alloc,
    {
        let r = ResourceStack { alloc, stack: Vec::new() };
        proof {
            assert(r.stored() =~= Seq::<T>::empty());
        }
        r
    }

    /// Create a new resource stack with an allocator and an initial capacity.
    pub fn with_capacity(alloc: F, cap: usize) -> (r: Self)
        ensures
            r.stored() == Seq::<T>::empty(),
            r.allocator() == alloc,
    {
        let r = ResourceStack { alloc, stack: Vec::with_capacity(cap) };
        proof {
            assert(r.stored() =~= Seq::<T>::empty());
        }
        r
    }

    /// Reuse the most recently released resource, or have the allocator
    /// create one when none is held.
    pub fn acquire(&mut self) -> (r: T)
        requires
            old(self).stored().len() == 0 ==> call_requires(old(self).allocator(), ()),
        ensures
            old(self).stored().len() > 0 ==> r == old(self).stored().last()
                && final(self).stored() == old(self).stored().drop_last()
                && final(self).allocator() == old(self).allocator(),
            old(self).stored().len() == 0 ==> final(self).stored() == old(self).stored()
                && call_ensures(old(self).allocator(), (), r),
    {
        let popped = self.stack.pop();
        match popped {
            Some(t) => t,
            None => (self.alloc)(),
        }
    }

    /// Place a resource back on the stack for later reuse.
    pub fn release(&mut self, resource: T)
        ensures
            final(self).stored() == old(self).stored().push(resource),
            final(self).allocator() == old(self).allocator(),
    {
        self.stack.push(resource);
    }

    /// Drop every held resource.
    pub fn clear(&mut self)
        ensures
            final(self).stored() == Seq::<T>::empty(),
            final(self).allocator() == old(self).allocator(),
    {
        self.stack.clear();
        proof {
            assert(self.stored() =~= Seq::<T>::empty());
        }
    }
}

} // verus!
